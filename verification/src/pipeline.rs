//! The whole way from the tools' output to the report.

use vstd::prelude::*;
use crate::aggregate::{
    details_of_run, details_view, enrich_pid, fold_records, run_details, table_pids, AggregateTable,
    AggregateView,
};
use crate::listing::{listing_records, parse_socket_listing};
use crate::report::{build_report, report_of, row_views, PortInfo, PortInfoView};
use crate::tool::{listing_text, socket_listing, ErrorView, PortError, ToolRun, ToolRunView};

verus! {

/// A run of the status tool on one process.
#[derive(Debug, PartialEq, Eq)]
pub struct StatusProbe {
    pub pid: u32,
    pub run: ToolRun,
}

/// The mathematical content of a `StatusProbe`.
pub ghost struct ProbeView {
    pub pid: u32,
    pub run: ToolRunView,
}

impl View for StatusProbe {
    type V = ProbeView;

    open spec fn view(&self) -> ProbeView {
        ProbeView { pid: self.pid, run: self.run@ }
    }
}

/// The views of a sequence of probes.
pub open spec fn probe_views(v: Seq<StatusProbe>) -> Seq<ProbeView> {
    v.map_values(|p: StatusProbe| p@)
}

/// The table that a listing gives, before any status is known.
pub open spec fn listed_table(text: Seq<char>) -> Seq<AggregateView> {
    fold_records(listing_records(text))
}

/// The table after a sequence of probes, each taken in its turn. A probe
/// that failed, or whose output holds no details, leaves the table as it
/// was.
pub open spec fn apply_probes(t: Seq<AggregateView>, probes: Seq<ProbeView>) -> Seq<AggregateView>
    decreases probes.len(),
{
    if probes.len() == 0 {
        t
    } else {
        enrich_pid(
            apply_probes(t, probes.drop_last()),
            probes.last().pid,
            run_details(probes.last().run),
        )
    }
}

/// The processes to probe after a run of the socket lister: those of the
/// listing, each once, in the order in which they were first seen; or the
/// error that ends the report.
pub open spec fn probe_plan(listing: ToolRunView) -> Result<Seq<u32>, ErrorView> {
    match listing_text(listing) {
        Ok(text) => Ok(table_pids(listed_table(text))),
        Err(e) => Err(e),
    }
}

/// The report that a run of the socket lister and the probes of its
/// processes give; or the error of the socket lister, which alone ends the
/// report.
pub open spec fn ports_report(listing: ToolRunView, probes: Seq<ProbeView>) -> Result<
    Seq<PortInfoView>,
    ErrorView,
> {
    match listing_text(listing) {
        Ok(text) => Ok(report_of(apply_probes(listed_table(text), probes))),
        Err(e) => Err(e),
    }
}

/// Reads a run of the socket lister into the table of its processes.
pub fn aggregate_listing(listing: &ToolRun) -> (r: Result<AggregateTable, PortError>)
    ensures
        match r {
            Ok(table) => listing_text(listing@) matches Ok(text) && table@ == listed_table(text),
            Err(e) => listing_text(listing@) == Err::<Seq<char>, ErrorView>(e@),
        },
{
    match socket_listing(listing) {
        Ok(text) => {
            let records = parse_socket_listing(text.as_str());
            Ok(AggregateTable::from_records(&records))
        },
        Err(e) => Err(e),
    }
}

/// Says which processes to probe after a run of the socket lister.
pub fn probe_targets(listing: &ToolRun) -> (r: Result<Vec<u32>, PortError>)
    ensures
        match r {
            Ok(pids) => probe_plan(listing@) == Ok::<Seq<u32>, ErrorView>(pids@),
            Err(e) => probe_plan(listing@) == Err::<Seq<u32>, ErrorView>(e@),
        },
{
    match aggregate_listing(listing) {
        Ok(table) => Ok(table.pids()),
        Err(e) => Err(e),
    }
}

/// Takes the probes into the table, each in its turn.
pub fn supply_probes(table: &mut AggregateTable, probes: &Vec<StatusProbe>)
    ensures
        final(table)@ == apply_probes(old(table)@, probe_views(probes@)),
{
    let ghost all = probe_views(probes@);
    let ghost start = table@;
    let mut i: usize = 0;
    assert(all.take(0) =~= Seq::<ProbeView>::empty());
    while i < probes.len()
        invariant
            i <= probes.len(),
            all == probe_views(probes@),
            table@ == apply_probes(start, all.take(i as int)),
        decreases probes.len() - i,
    {
        assert(all.take(i + 1).drop_last() == all.take(i as int));
        assert(all.take(i + 1).last() == probes@[i as int]@);
        let details = details_of_run(&probes[i].run);
        assert(details_view(details) == run_details(probes@[i as int]@.run));
        table.enrich(probes[i].pid, details);
        i = i + 1;
    }
    assert(all.take(probes.len() as int) == all);
}

/// Builds the report from a run of the socket lister and from the probes
/// of its processes.
pub fn list_ports(listing: &ToolRun, probes: &Vec<StatusProbe>) -> (r: Result<
    Vec<PortInfo>,
    PortError,
>)
    ensures
        match r {
            Ok(rows) => ports_report(listing@, probe_views(probes@)) == Ok::<
                Seq<PortInfoView>,
                ErrorView,
            >(row_views(rows@)),
            Err(e) => ports_report(listing@, probe_views(probes@)) == Err::<
                Seq<PortInfoView>,
                ErrorView,
            >(e@),
        },
{
    match aggregate_listing(listing) {
        Ok(table) => {
            let mut table = table;
            supply_probes(&mut table, probes);
            Ok(build_report(&table))
        },
        Err(e) => Err(e),
    }
}

} // verus!
