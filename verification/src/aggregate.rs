//! The per-process table: what the socket records say of each process,
//! completed by what the status tool reports of it.

use vstd::prelude::*;
use crate::listing::{record_views, RawSocketRecord, RecordView};
use crate::text::{join, join_texts, split_words, texts, words};
use crate::tool::{ToolRun, ToolRunView};

verus! {

/// What the status tool reports of one process.
#[derive(Debug, PartialEq, Eq)]
pub struct ProcessDetails {
    pub user: String,
    pub cpu: String,
    pub mem: String,
    pub command: String,
}

/// The mathematical content of `ProcessDetails`.
pub ghost struct DetailsView {
    pub user: Seq<char>,
    pub cpu: Seq<char>,
    pub mem: Seq<char>,
    pub command: Seq<char>,
}

impl View for ProcessDetails {
    type V = DetailsView;

    open spec fn view(&self) -> DetailsView {
        DetailsView { user: self.user@, cpu: self.cpu@, mem: self.mem@, command: self.command@ }
    }
}

/// The details that a status line holds: its first three words are user,
/// CPU share and memory share; all further words, with one blank between
/// neighbours, are the command line. A line of fewer than four words holds
/// none.
pub open spec fn status_details(output: Seq<char>) -> Option<DetailsView> {
    let w = words(output);
    if w.len() >= 4 {
        Some(DetailsView { user: w[0], cpu: w[1], mem: w[2], command: join(w.skip(3), seq![' ']) })
    } else {
        None
    }
}

/// The details that a run of the status tool gives: those of its output
/// where it ran to its end, whatever it reported of its success; else none.
pub open spec fn run_details(run: ToolRunView) -> Option<DetailsView> {
    match run {
        ToolRunView::Completed { success, stdout, stderr } => status_details(stdout),
        _ => None,
    }
}

/// The content of details that may be missing.
pub open spec fn details_view(d: Option<ProcessDetails>) -> Option<DetailsView> {
    match d {
        Some(d) => Some(d@),
        None => None,
    }
}

/// Reads the output of the status tool.
pub fn parse_process_status(output: &str) -> (r: Option<ProcessDetails>)
    ensures
        match r {
            Some(d) => status_details(output@) == Some(d@),
            None => status_details(output@) is None,
        },
{
    let w = split_words(output);
    if w.len() < 4 {
        return None;
    }
    let mut rest: Vec<String> = Vec::new();
    let mut i: usize = 3;
    while i < w.len()
        invariant
            3 <= i <= w.len(),
            texts(rest@) == texts(w@).subrange(3, i as int),
        decreases w.len() - i,
    {
        let ghost before = rest@;
        rest.push(w[i].clone());
        assert(texts(rest@) == texts(before).push(w@[i as int]@));
        i = i + 1;
    }
    assert(texts(w@).subrange(3, w.len() as int) == texts(w@).skip(3));
    proof {
        reveal_strlit(" ");
    }
    let command = join_texts(&rest, " ");
    assert(" "@ == seq![' ']);
    Some(ProcessDetails { user: w[0].clone(), cpu: w[1].clone(), mem: w[2].clone(), command })
}

/// Reads a run of the status tool.
pub fn details_of_run(run: &ToolRun) -> (r: Option<ProcessDetails>)
    ensures
        match r {
            Some(d) => run_details(run@) == Some(d@),
            None => run_details(run@) is None,
        },
{
    match run {
        ToolRun::Completed(out) => parse_process_status(out.stdout.as_str()),
        _ => None,
    }
}

/// `list` with `item` at its end, unless it holds `item` already.
pub open spec fn add_unique(list: Seq<Seq<char>>, item: Seq<char>) -> Seq<Seq<char>> {
    if list.contains(item) {
        list
    } else {
        list.push(item)
    }
}

/// Adding an item that may be there already keeps a list free of repeats.
pub proof fn lemma_add_unique(list: Seq<Seq<char>>, item: Seq<char>)
    requires
        list.no_duplicates(),
    ensures
        add_unique(list, item).no_duplicates(),
        add_unique(list, item).contains(item),
{
    if list.contains(item) {
    } else {
        let after = list.push(item);
        assert(after[list.len() as int] == item);
        assert forall|i: int, j: int| 0 <= i < after.len() && 0 <= j < after.len() && i != j implies after[i]
            != after[j] by {
            if i < list.len() && j < list.len() {
            } else if i < list.len() {
                assert(list.contains(list[i]));
            } else {
                assert(list.contains(list[j]));
            }
        }
    }
}

/// Tells whether `list` holds a string with the text of `item`.
pub fn holds_text(list: &Vec<String>, item: &String) -> (b: bool)
    ensures
        b == texts(list@).contains(item@),
{
    let mut i: usize = 0;
    while i < list.len()
        invariant
            i <= list.len(),
            forall|k: int| 0 <= k < i ==> texts(list@)[k] != item@,
        decreases list.len() - i,
    {
        if list[i] == *item {
            assert(texts(list@)[i as int] == item@);
            return true;
        }
        i = i + 1;
    }
    false
}

/// All that is known of one process.
#[derive(Debug, PartialEq, Eq)]
pub struct PidAggregate {
    pid: u32,
    process_name: String,
    ports: Vec<String>,
    protocols: Vec<String>,
    user: String,
    cpu: String,
    mem: String,
    command: String,
}

/// The mathematical content of a `PidAggregate`.
pub ghost struct AggregateView {
    pub pid: u32,
    pub process_name: Seq<char>,
    /// The ports, in the order in which they were first seen.
    pub ports: Seq<Seq<char>>,
    pub protocols: Seq<Seq<char>>,
    pub user: Seq<char>,
    pub cpu: Seq<char>,
    pub mem: Seq<char>,
    pub command: Seq<char>,
}

impl AggregateView {
    /// No port and no protocol is held twice.
    pub open spec fn wf(self) -> bool {
        self.ports.no_duplicates() && self.protocols.no_duplicates()
    }

    /// The aggregate of a process of which only id and name are known.
    pub open spec fn fresh(pid: u32, process_name: Seq<char>) -> AggregateView {
        AggregateView {
            pid,
            process_name,
            ports: Seq::empty(),
            protocols: Seq::empty(),
            user: Seq::empty(),
            cpu: Seq::empty(),
            mem: Seq::empty(),
            command: Seq::empty(),
        }
    }

    /// The aggregate after one more socket of the process was seen.
    pub open spec fn with_socket(self, port: Seq<char>, protocol: Seq<char>) -> AggregateView {
        AggregateView {
            ports: add_unique(self.ports, port),
            protocols: add_unique(self.protocols, protocol),
            ..self
        }
    }

    /// The aggregate with the details that the status tool reported.
    pub open spec fn with_details(self, d: DetailsView) -> AggregateView {
        AggregateView { user: d.user, cpu: d.cpu, mem: d.mem, command: d.command, ..self }
    }

    /// The aggregate after a status report that may hold no details.
    pub open spec fn enriched(self, d: Option<DetailsView>) -> AggregateView {
        match d {
            Some(d) => self.with_details(d),
            None => self,
        }
    }
}

impl View for PidAggregate {
    type V = AggregateView;

    closed spec fn view(&self) -> AggregateView {
        AggregateView {
            pid: self.pid,
            process_name: self.process_name@,
            ports: texts(self.ports@),
            protocols: texts(self.protocols@),
            user: self.user@,
            cpu: self.cpu@,
            mem: self.mem@,
            command: self.command@,
        }
    }
}

impl PidAggregate {
    #[verifier::type_invariant]
    spec fn inv(self) -> bool {
        self@.wf()
    }

    /// The aggregate of a process of which only id and name are known.
    pub fn new(pid: u32, process_name: String) -> (a: PidAggregate)
        ensures
            a@ == AggregateView::fresh(pid, process_name@),
    {
        let a = PidAggregate {
            pid,
            process_name,
            ports: Vec::new(),
            protocols: Vec::new(),
            user: String::new(),
            cpu: String::new(),
            mem: String::new(),
            command: String::new(),
        };
        assert(a@.ports =~= Seq::empty() && a@.protocols =~= Seq::empty());
        a
    }

    /// Notes one more socket of the process: its port and its protocol,
    /// each unless it is held already.
    pub fn add_socket(&mut self, port: String, protocol: String)
        ensures
            final(self)@ == old(self)@.with_socket(port@, protocol@),
            final(self)@.wf(),
    {
        proof {
            use_type_invariant(&*self);
            lemma_add_unique(self@.ports, port@);
            lemma_add_unique(self@.protocols, protocol@);
        }
        let ghost before = self@;
        let have_port = holds_text(&self.ports, &port);
        let have_protocol = holds_text(&self.protocols, &protocol);
        let mut ports: Vec<String> = Vec::new();
        let mut protocols: Vec<String> = Vec::new();
        core::mem::swap(&mut ports, &mut self.ports);
        core::mem::swap(&mut protocols, &mut self.protocols);
        if !have_port {
            ports.push(port);
        }
        if !have_protocol {
            protocols.push(protocol);
        }
        assert(texts(ports@) =~= add_unique(before.ports, port@));
        assert(texts(protocols@) =~= add_unique(before.protocols, protocol@));
        self.ports = ports;
        self.protocols = protocols;
    }

    /// Stores the details that the status tool reported.
    pub fn set_details(&mut self, d: ProcessDetails)
        ensures
            final(self)@ == old(self)@.with_details(d@),
    {
        proof {
            use_type_invariant(&*self);
        }
        self.user = d.user;
        self.cpu = d.cpu;
        self.mem = d.mem;
        self.command = d.command;
    }

    /// The process id.
    pub fn pid(&self) -> (pid: u32)
        ensures
            pid == self@.pid,
    {
        self.pid
    }

    /// The name of the process, as the first record of it gave it.
    pub fn process_name(&self) -> (name: &String)
        ensures
            name@ == self@.process_name,
    {
        &self.process_name
    }

    /// The ports, in the order in which they were first seen, none twice.
    pub fn ports(&self) -> (ports: &Vec<String>)
        ensures
            texts(ports@) == self@.ports,
            self@.ports.no_duplicates(),
    {
        proof {
            use_type_invariant(self);
        }
        &self.ports
    }

    /// The protocols, none twice.
    pub fn protocols(&self) -> (protocols: &Vec<String>)
        ensures
            texts(protocols@) == self@.protocols,
            self@.protocols.no_duplicates(),
    {
        proof {
            use_type_invariant(self);
        }
        &self.protocols
    }

    /// The user that owns the process; empty until the status tool reported.
    pub fn user(&self) -> (user: &String)
        ensures
            user@ == self@.user,
    {
        &self.user
    }

    /// The CPU share of the process, as the status tool wrote it; empty until then.
    pub fn cpu(&self) -> (cpu: &String)
        ensures
            cpu@ == self@.cpu,
    {
        &self.cpu
    }

    /// The memory share of the process, as the status tool wrote it; empty until then.
    pub fn mem(&self) -> (mem: &String)
        ensures
            mem@ == self@.mem,
    {
        &self.mem
    }

    /// The full command line of the process; empty until the status tool reported.
    pub fn command(&self) -> (command: &String)
        ensures
            command@ == self@.command,
    {
        &self.command
    }
}

/// The views of a sequence of aggregates.
pub open spec fn aggregate_views(v: Seq<PidAggregate>) -> Seq<AggregateView> {
    v.map_values(|e: PidAggregate| e@)
}

/// A table is in order when no process id occurs twice and no entry holds a
/// port or a protocol twice.
pub open spec fn table_wf(t: Seq<AggregateView>) -> bool {
    &&& forall|i: int| 0 <= i < t.len() ==> (#[trigger] t[i]).wf()
    &&& forall|i: int, j: int| 0 <= i < j < t.len() ==> (#[trigger] t[i]).pid != (#[trigger] t[j]).pid
}

/// The table has an entry for the process `pid`.
pub open spec fn has_pid(t: Seq<AggregateView>, pid: u32) -> bool {
    exists|i: int| 0 <= i < t.len() && (#[trigger] t[i]).pid == pid
}

/// The place of the entry for the process `pid`.
pub open spec fn place_of(t: Seq<AggregateView>, pid: u32) -> int {
    choose|i: int| 0 <= i < t.len() && (#[trigger] t[i]).pid == pid
}

/// The table after one more socket record: the record's port and protocol
/// go to the entry of its process; a process seen for the first time gets a
/// new entry at the end, under the name that this record gives it.
pub open spec fn fold_record(t: Seq<AggregateView>, r: RecordView) -> Seq<AggregateView> {
    if has_pid(t, r.pid) {
        t.update(place_of(t, r.pid), t[place_of(t, r.pid)].with_socket(r.port(), r.protocol))
    } else {
        t.push(AggregateView::fresh(r.pid, r.process_name).with_socket(r.port(), r.protocol))
    }
}

/// The table that a sequence of socket records gives.
pub open spec fn fold_records(rs: Seq<RecordView>) -> Seq<AggregateView>
    decreases rs.len(),
{
    if rs.len() == 0 {
        Seq::empty()
    } else {
        fold_record(fold_records(rs.drop_last()), rs.last())
    }
}

/// The table after the status tool reported on the process `pid`: the
/// details go to the entry of that process. A report without details, or on
/// a process that the table does not hold, changes nothing.
pub open spec fn enrich_pid(t: Seq<AggregateView>, pid: u32, d: Option<DetailsView>) -> Seq<
    AggregateView,
> {
    if has_pid(t, pid) {
        t.update(place_of(t, pid), t[place_of(t, pid)].enriched(d))
    } else {
        t
    }
}

/// The process ids of a table, in the order of its entries.
pub open spec fn table_pids(t: Seq<AggregateView>) -> Seq<u32> {
    t.map_values(|e: AggregateView| e.pid)
}

/// In a table that is in order, the entry of a process is where that
/// process id stands.
pub proof fn lemma_place_of(t: Seq<AggregateView>, i: int)
    requires
        table_wf(t),
        0 <= i < t.len(),
    ensures
        has_pid(t, t[i].pid),
        place_of(t, t[i].pid) == i,
{
    let j = place_of(t, t[i].pid);
    if j < i {
        assert(t[j].pid != t[i].pid);
    } else if i < j {
        assert(t[i].pid != t[j].pid);
    }
}

/// One more socket record keeps a table in order.
pub proof fn lemma_fold_record_wf(t: Seq<AggregateView>, r: RecordView)
    requires
        table_wf(t),
    ensures
        table_wf(fold_record(t, r)),
{
    let after = fold_record(t, r);
    if has_pid(t, r.pid) {
        let p = place_of(t, r.pid);
        lemma_add_unique(t[p].ports, r.port());
        lemma_add_unique(t[p].protocols, r.protocol);
        assert forall|i: int| 0 <= i < after.len() implies (#[trigger] after[i]).wf() by {
            if i != p {
                assert(after[i] == t[i]);
            }
        }
        assert forall|i: int, j: int| 0 <= i < j < after.len() implies (#[trigger] after[i]).pid != (
        #[trigger] after[j]).pid by {
            assert(after[i].pid == t[i].pid && after[j].pid == t[j].pid);
        }
    } else {
        let e = AggregateView::fresh(r.pid, r.process_name);
        lemma_add_unique(e.ports, r.port());
        lemma_add_unique(e.protocols, r.protocol);
        assert forall|i: int| 0 <= i < after.len() implies (#[trigger] after[i]).wf() by {
            if i < t.len() {
                assert(after[i] == t[i]);
            }
        }
        assert forall|i: int, j: int| 0 <= i < j < after.len() implies (#[trigger] after[i]).pid != (
        #[trigger] after[j]).pid by {
            assert(after[i] == t[i]);
            if j < t.len() {
                assert(after[j] == t[j]);
            }
        }
    }
}

/// The table holds a process exactly if a socket record names it.
pub proof fn lemma_table_pids_are_listed(rs: Seq<RecordView>, pid: u32)
    ensures
        has_pid(fold_records(rs), pid) <==> exists|j: int|
            0 <= j < rs.len() && (#[trigger] rs[j]).pid == pid,
    decreases rs.len(),
{
    if rs.len() > 0 {
        let init = rs.drop_last();
        let r = rs.last();
        let t = fold_records(init);
        let after = fold_records(rs);
        lemma_table_pids_are_listed(init, pid);
        if has_pid(after, pid) {
            let i = choose|i: int| 0 <= i < after.len() && (#[trigger] after[i]).pid == pid;
            if has_pid(t, r.pid) {
                assert(after[i].pid == t[i].pid);
                assert(has_pid(t, pid));
            } else if i < t.len() {
                assert(after[i] == t[i]);
                assert(has_pid(t, pid));
            } else {
                assert(rs[rs.len() - 1].pid == pid);
            }
            if has_pid(t, pid) {
                let j = choose|j: int| 0 <= j < init.len() && (#[trigger] init[j]).pid == pid;
                assert(rs[j] == init[j]);
            }
        }
        if exists|j: int| 0 <= j < rs.len() && (#[trigger] rs[j]).pid == pid {
            let j = choose|j: int| 0 <= j < rs.len() && (#[trigger] rs[j]).pid == pid;
            if j < init.len() {
                assert(init[j] == rs[j]);
                assert(has_pid(t, pid));
                let i = choose|i: int| 0 <= i < t.len() && (#[trigger] t[i]).pid == pid;
                if has_pid(t, r.pid) {
                    assert(after[i].pid == t[i].pid);
                } else {
                    assert(after[i] == t[i]);
                }
            } else {
                if has_pid(t, r.pid) {
                    let i = place_of(t, r.pid);
                    assert(after[i].pid == pid);
                } else {
                    assert(after[t.len() as int].pid == pid);
                }
            }
        }
    }
}

/// The table that socket records give is in order.
pub proof fn lemma_fold_records_wf(rs: Seq<RecordView>)
    ensures
        table_wf(fold_records(rs)),
    decreases rs.len(),
{
    if rs.len() > 0 {
        lemma_fold_records_wf(rs.drop_last());
        lemma_fold_record_wf(fold_records(rs.drop_last()), rs.last());
    }
}

/// A status report keeps a table in order, and changes neither the
/// processes in it nor their ports.
pub proof fn lemma_enrich_pid_wf(t: Seq<AggregateView>, pid: u32, d: Option<DetailsView>)
    requires
        table_wf(t),
    ensures
        table_wf(enrich_pid(t, pid, d)),
        enrich_pid(t, pid, d).len() == t.len(),
        forall|i: int|
            0 <= i < t.len() ==> {
                &&& (#[trigger] enrich_pid(t, pid, d)[i]).pid == t[i].pid
                &&& enrich_pid(t, pid, d)[i].process_name == t[i].process_name
                &&& enrich_pid(t, pid, d)[i].ports == t[i].ports
                &&& enrich_pid(t, pid, d)[i].protocols == t[i].protocols
            },
{
    let after = enrich_pid(t, pid, d);
    assert forall|i: int, j: int| 0 <= i < j < after.len() implies (#[trigger] after[i]).pid != (
    #[trigger] after[j]).pid by {
        assert(after[i].pid == t[i].pid && after[j].pid == t[j].pid);
    }
    assert forall|i: int| 0 <= i < after.len() implies (#[trigger] after[i]).wf() by {
        assert(t[i].wf());
    }
}

/// The table of processes, one entry for each process id.
#[derive(Debug, PartialEq, Eq)]
pub struct AggregateTable {
    entries: Vec<PidAggregate>,
}

impl View for AggregateTable {
    type V = Seq<AggregateView>;

    closed spec fn view(&self) -> Seq<AggregateView> {
        aggregate_views(self.entries@)
    }
}

impl AggregateTable {
    #[verifier::type_invariant]
    spec fn inv(self) -> bool {
        table_wf(self@)
    }

    /// The empty table.
    pub fn new() -> (t: AggregateTable)
        ensures
            t@ == Seq::<AggregateView>::empty(),
    {
        let t = AggregateTable { entries: Vec::new() };
        assert(t@ =~= Seq::<AggregateView>::empty());
        t
    }

    /// The entries, in the order in which their processes were first seen.
    pub fn entries(&self) -> (entries: &Vec<PidAggregate>)
        ensures
            aggregate_views(entries@) == self@,
            table_wf(self@),
    {
        proof {
            use_type_invariant(self);
        }
        &self.entries
    }

    /// The number of processes.
    pub fn len(&self) -> (n: usize)
        ensures
            n == self@.len(),
    {
        self.entries.len()
    }

    /// The process ids, in the order in which they were first seen.
    pub fn pids(&self) -> (pids: Vec<u32>)
        ensures
            pids@ == table_pids(self@),
    {
        let mut pids: Vec<u32> = Vec::new();
        let mut i: usize = 0;
        while i < self.entries.len()
            invariant
                i <= self.entries.len(),
                pids@ == table_pids(self@).take(i as int),
            decreases self.entries.len() - i,
        {
            pids.push(self.entries[i].pid);
            assert(pids@ =~= table_pids(self@).take(i + 1));
            i = i + 1;
        }
        assert(table_pids(self@).take(self.entries.len() as int) == table_pids(self@));
        pids
    }

    /// Where the entry of the process `pid` stands, if there is one.
    pub fn find(&self, pid: u32) -> (r: Option<usize>)
        ensures
            match r {
                Some(i) => has_pid(self@, pid) && i == place_of(self@, pid),
                None => !has_pid(self@, pid),
            },
    {
        proof {
            use_type_invariant(self);
        }
        let mut i: usize = 0;
        while i < self.entries.len()
            invariant
                i <= self.entries.len(),
                table_wf(self@),
                forall|k: int| 0 <= k < i ==> (#[trigger] self@[k]).pid != pid,
            decreases self.entries.len() - i,
        {
            if self.entries[i].pid == pid {
                proof {
                    lemma_place_of(self@, i as int);
                }
                return Some(i);
            }
            i = i + 1;
        }
        None
    }

    /// Folds one socket record into the table.
    pub fn fold_record(&mut self, record: &RawSocketRecord)
        ensures
            final(self)@ == fold_record(old(self)@, record@),
    {
        proof {
            use_type_invariant(&*self);
            lemma_fold_record_wf(self@, record@);
        }
        let ghost before = self@;
        let port = record.port();
        let protocol = record.protocol.clone();
        let mut entries: Vec<PidAggregate> = Vec::new();
        let found = self.find(record.pid);
        core::mem::swap(&mut entries, &mut self.entries);
        assert(aggregate_views(entries@) == before);
        match found {
            Some(i) => {
                let mut e = entries.remove(i);
                e.add_socket(port, protocol);
                entries.insert(i, e);
            },
            None => {
                let mut e = PidAggregate::new(record.pid, record.process_name.clone());
                e.add_socket(port, protocol);
                entries.push(e);
            },
        }
        assert(aggregate_views(entries@) =~= fold_record(before, record@));
        self.entries = entries;
    }

    /// The table that a sequence of socket records gives.
    pub fn from_records(records: &Vec<RawSocketRecord>) -> (t: AggregateTable)
        ensures
            t@ == fold_records(record_views(records@)),
    {
        let mut t = AggregateTable::new();
        let mut i: usize = 0;
        let ghost all = record_views(records@);
        assert(all.take(0) =~= Seq::<RecordView>::empty());
        while i < records.len()
            invariant
                i <= records.len(),
                all == record_views(records@),
                t@ == fold_records(all.take(i as int)),
            decreases records.len() - i,
        {
            assert(all.take(i + 1).drop_last() == all.take(i as int));
            assert(all.take(i + 1).last() == records@[i as int]@);
            t.fold_record(&records[i]);
            i = i + 1;
        }
        assert(all.take(records.len() as int) == all);
        t
    }

    /// Stores what the status tool reported on the process `pid`.
    pub fn enrich(&mut self, pid: u32, details: Option<ProcessDetails>)
        ensures
            final(self)@ == enrich_pid(old(self)@, pid, details_view(details)),
    {
        proof {
            use_type_invariant(&*self);
        }
        let ghost before = self@;
        let ghost dv = details_view(details);
        proof {
            lemma_enrich_pid_wf(before, pid, dv);
        }
        let found = self.find(pid);
        match (found, details) {
            (Some(i), Some(d)) => {
                let mut entries: Vec<PidAggregate> = Vec::new();
                core::mem::swap(&mut entries, &mut self.entries);
                let mut e = entries.remove(i);
                e.set_details(d);
                entries.insert(i, e);
                assert(aggregate_views(entries@) =~= enrich_pid(before, pid, dv));
                self.entries = entries;
            },
            _ => {
                assert(self@ =~= enrich_pid(before, pid, dv));
            },
        }
    }
}

} // verus!
