//! The report on the schedule of a graph: the slots as a table.

use vstd::prelude::*;
use vstd::string::StringExecFns;
use tabled::builder::Builder;
use tabled::settings::{Alignment, Style};
use crate::algorithm::Algorithm;
use crate::command::get_priority_list::{is_list_by, priority_list};
use crate::decimal::{decimal, digits_text};
use crate::graph::PrecedenceGraph;
use crate::schedule::{completes, is_greedy_schedule, is_valid_schedule, ProfilePolicy, ScheduleError};
use crate::coffman_graham::lemma_cg_list_is_priority_list;
use crate::scheduler::slots;
use crate::text::text_of;

verus! {

/// A processor of a slot as text: its task, or a dash if it is idle.
pub open spec fn cell_text(entry: Option<u128>) -> Seq<char> {
    match entry {
        Some(j) => digits_text(j as nat),
        None => seq!['-'],
    }
}

/// The record of a slot: the number of its processors, then its processors.
pub open spec fn record_of(slot: Seq<Option<u128>>) -> Seq<Seq<char>> {
    Seq::new(
        slot.len() + 1,
        |i: int|
            if i == 0 {
                digits_text(slot.len())
            } else {
                cell_text(slot[i - 1])
            },
    )
}

/// The records of a schedule, one for each slot.
pub open spec fn records_of(s: Seq<Seq<Option<u128>>>) -> Seq<Seq<Seq<char>>> {
    Seq::new(s.len(), |t: int| record_of(s[t]))
}

/// The text of the table that the crate `tabled` draws of the records. What
/// it looks like is not described here: `render_table` says which calls draw
/// it.
pub uninterp spec fn table_text(records: Seq<Seq<Seq<char>>>) -> Seq<char>;

/// The line that reports a schedule.
pub open spec fn schedule_report(algorithm: Algorithm, table: Seq<char>) -> Seq<char> {
    "Schedule using algorithm "@ + algorithm.label() + ":\n"@ + table
}

/// Draws the records as a table. This rests on the crate `tabled`: the
/// records go into a `Builder` by `push_record`; of its `index` the column
/// is set to the first by `column`, the name taken away by `name`, and rows
/// and columns are exchanged by `transpose`; the table that `build` gives
/// has the style `Style::modern` and the alignment `Alignment::center` and
/// is written out by `to_string`. The drawn text is taken to depend on the
/// records alone; nothing is claimed of what it looks like.
#[verifier::external_body]
fn render_table(records: Vec<Vec<String>>) -> (text: String)
    requires
        forall|i: int| 0 <= i < records@.len() ==> (#[trigger] records@[i])@.len() >= 1,
    ensures
        text@ == table_text(records.deep_view()),
{
    let mut builder = Builder::default();
    for record in records {
        builder.push_record(record);
    }
    let mut table = builder.index().column(0).name(None).transpose().build();
    table.with(Style::modern()).with(Alignment::center());
    table.to_string()
}

/// The record of one slot.
pub fn slot_record(slot: &Vec<Option<u128>>) -> (record: Vec<String>)
    ensures
        record.deep_view() == record_of(slot@),
        record@.len() >= 1,
{
    let mut record: Vec<String> = Vec::new();
    record.push(text_of(&decimal(slot.len() as u128)));
    let mut i: usize = 0;
    while i < slot.len()
        invariant
            i <= slot@.len(),
            record@.len() == i + 1,
            record@[0]@ == digits_text(slot@.len()),
            forall|k: int| 1 <= k < i + 1 ==> (#[trigger] record@[k])@ == cell_text(slot@[k - 1]),
        decreases slot@.len() - i,
    {
        let cell = match slot[i] {
            Some(j) => text_of(&decimal(j)),
            None => String::from_str("-"),
        };
        proof {
            reveal_strlit("-");
            assert("-"@ =~= seq!['-']);
        }
        record.push(cell);
        i = i + 1;
    }
    proof {
        assert(record.deep_view() =~= record_of(slot@));
    }
    record
}

/// The records of a schedule.
pub fn schedule_records(schedule: &Vec<Vec<Option<u128>>>) -> (records: Vec<Vec<String>>)
    ensures
        records.deep_view() == records_of(slots(schedule@)),
        forall|i: int| 0 <= i < records@.len() ==> (#[trigger] records@[i])@.len() >= 1,
{
    let mut records: Vec<Vec<String>> = Vec::new();
    let mut t: usize = 0;
    while t < schedule.len()
        invariant
            t <= schedule@.len(),
            records@.len() == t,
            forall|k: int| 0 <= k < t ==> (#[trigger] records@[k]).deep_view() == record_of(schedule@[k]@),
            forall|k: int| 0 <= k < t ==> (#[trigger] records@[k])@.len() >= 1,
        decreases schedule@.len() - t,
    {
        let record = slot_record(&schedule[t]);
        records.push(record);
        t = t + 1;
    }
    proof {
        assert(records.deep_view() =~= records_of(slots(schedule@)));
    }
    records
}

/// The table of a schedule, drawn of the records of its slots. How the
/// records are laid out in it is the drawing crate's matter.
pub fn create_schedule_table(schedule: &Vec<Vec<Option<u128>>>) -> (table: String)
    ensures
        table@ == table_text(records_of(slots(schedule@))),
{
    render_table(schedule_records(schedule))
}

/// The schedule of the graph under the priority list of the given algorithm,
/// the profile's last value holding for all later slots.
pub fn schedule_by(graph: &PrecedenceGraph, algorithm: &Algorithm, profile: &Vec<usize>) -> (r: Result<
    Vec<Vec<Option<u128>>>,
    ScheduleError,
>)
    requires
        graph.wf(),
    ensures
        exists|list: Seq<u128>|
            is_list_by(graph.nodes(), graph.edges(), *algorithm, list) && (r is Ok <==> completes(
                graph.edges(),
                graph.nodes(),
                list,
                profile@,
                ProfilePolicy::RepeatLast,
            )) && (r matches Ok(s) ==> is_greedy_schedule(
                graph.edges(),
                graph.nodes(),
                list,
                profile@,
                ProfilePolicy::RepeatLast,
                slots(s@),
            )),
        r matches Ok(s) ==> is_valid_schedule(
            graph.nodes(),
            graph.edges(),
            profile@,
            ProfilePolicy::RepeatLast,
            slots(s@),
        ),
        profile@.len() > 0 && profile@[profile@.len() - 1] >= 1 ==> r is Ok,
{
    let list = priority_list(graph, algorithm);
    proof {
        if *algorithm == Algorithm::Cg {
            lemma_cg_list_is_priority_list(graph.nodes(), graph.edges(), list@);
        }
    }
    graph.schedule(&list, profile, ProfilePolicy::RepeatLast)
}

/// Builds the schedule of the graph under the given algorithm and profile
/// and reports it as a table.
pub fn get_schedule(graph: &PrecedenceGraph, algorithm: &Algorithm, profile: &Vec<usize>) -> (r: Result<
    String,
    ScheduleError,
>)
    requires
        graph.wf(),
    ensures
        exists|list: Seq<u128>|
            is_list_by(graph.nodes(), graph.edges(), *algorithm, list) && (r is Ok <==> completes(
                graph.edges(),
                graph.nodes(),
                list,
                profile@,
                ProfilePolicy::RepeatLast,
            )) && (r matches Ok(text) ==> exists|s: Seq<Seq<Option<u128>>>|
                is_greedy_schedule(
                    graph.edges(),
                    graph.nodes(),
                    list,
                    profile@,
                    ProfilePolicy::RepeatLast,
                    s,
                ) && text@ == schedule_report(*algorithm, table_text(records_of(s)))),
        profile@.len() > 0 && profile@[profile@.len() - 1] >= 1 ==> r is Ok,
{
    match schedule_by(graph, algorithm, profile) {
        Err(e) => Err(e),
        Ok(schedule) => {
            let table = create_schedule_table(&schedule);
            let name = algorithm.name();
            let mut text = String::from_str("Schedule using algorithm ");
            text.append(name.as_str());
            text.append(":\n");
            text.append(table.as_str());
            proof {
                assert(text@ == schedule_report(
                    *algorithm,
                    table_text(records_of(slots(schedule@))),
                ));
            }
            Ok(text)
        },
    }
}

} // verus!
