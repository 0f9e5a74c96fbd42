//! The commands of the tool: what each of them reports for a graph, and how
//! a command line is carried out once the file it names has been read.

use vstd::prelude::*;
use vstd::string::StringExecFns;
use crate::algorithm::Algorithm;
use crate::command::get_priority_list::{is_list_by, priority_report};
use crate::command::get_schedule::{records_of, schedule_report, table_text};
use crate::command::is_quasi_interval_order::interval_report;
use crate::graph::PrecedenceGraph;
use crate::interval::is_interval_order;
use crate::parser::file_parser::{file_text, FileParser, FileParserError, FileSource};
use crate::parser::string_parser::{parses_to, StringParser, StringParserError};
use crate::parser::GraphParser;
use crate::schedule::{completes, is_greedy_schedule, ProfilePolicy, ScheduleError};

pub mod get_priority_list;
pub mod get_schedule;
pub mod is_quasi_interval_order;

verus! {

/// What is asked of a graph, and where the graph is to be found.
#[derive(Debug, Clone, PartialEq, Eq)]
pub enum Command {
    /// Check that the graph is a quasi-interval order.
    IsQuasiIntervalOrder { graph_str: Option<String>, file: Option<String> },
    /// Give the priority list of the graph under the algorithm.
    GetPriorityList { algorithm: Algorithm, graph_str: Option<String>, file: Option<String> },
    /// Give the schedule of the graph under the algorithm and the profile,
    /// the number of processors in each time slot.
    GetSchedule {
        algorithm: Algorithm,
        profile: Vec<usize>,
        graph_str: Option<String>,
        file: Option<String>,
    },
}

/// A command line.
#[derive(Debug, Clone, PartialEq, Eq)]
pub struct Cli {
    pub command: Command,
}

/// Where the graph of a command is to be found.
#[derive(Debug, Clone, PartialEq, Eq)]
pub enum GraphSource {
    /// In the text itself.
    Text(String),
    /// In the file of this name.
    File(String),
}

/// Why a command came to nothing.
#[derive(Debug, Clone, PartialEq, Eq)]
pub enum ProcessError {
    /// The command names neither a text nor a file.
    NoSource { message: String },
    /// The text `graph` is no graph, for the reason `cause`.
    Text { graph: String, cause: StringParserError },
    /// The file yields no graph.
    File(FileParserError),
    /// The graph has no schedule under the profile.
    Schedule(ScheduleError),
}

impl Command {
    /// The text of the graph that the command names, if it names one.
    pub open spec fn text(self) -> Option<String> {
        match self {
            Command::IsQuasiIntervalOrder { graph_str, file } => graph_str,
            Command::GetPriorityList { algorithm, graph_str, file } => graph_str,
            Command::GetSchedule { algorithm, profile, graph_str, file } => graph_str,
        }
    }

    /// The file of the graph that the command names, if it names one.
    pub open spec fn file(self) -> Option<String> {
        match self {
            Command::IsQuasiIntervalOrder { graph_str, file } => file,
            Command::GetPriorityList { algorithm, graph_str, file } => file,
            Command::GetSchedule { algorithm, profile, graph_str, file } => file,
        }
    }

    /// What is said where the command names no graph.
    pub open spec fn complaint(self) -> Seq<char> {
        match self {
            Command::IsQuasiIntervalOrder { .. } => "All args are nones in IsQuasiIntervalOrder"@,
            Command::GetPriorityList { .. } => "All graph sources are nones in GetPriorityList"@,
            Command::GetSchedule { .. } => "All graph sources are nones in GetSchedule"@,
        }
    }

    /// `r` is what the command comes to on the graph with these nodes and
    /// edges.
    pub open spec fn reports(
        self,
        nodes: Set<u128>,
        edges: Set<(u128, u128)>,
        r: Result<String, ProcessError>,
    ) -> bool {
        match self {
            Command::IsQuasiIntervalOrder { .. } => r matches Ok(line) && line@ == interval_report(
                is_interval_order(edges),
            ),
            Command::GetPriorityList { algorithm, .. } => r matches Ok(line) && exists|
                list: Seq<u128>,
            |
                is_list_by(nodes, edges, algorithm, list) && line@ == priority_report(algorithm, list),
            Command::GetSchedule { algorithm, profile, .. } => exists|list: Seq<u128>|
                is_list_by(nodes, edges, algorithm, list) && (r is Ok <==> completes(
                    edges,
                    nodes,
                    list,
                    profile@,
                    ProfilePolicy::RepeatLast,
                )) && (r is Err ==> r matches Err(ProcessError::Schedule(e))) && (r matches Ok(text)
                    ==> exists|s: Seq<Seq<Option<u128>>>|
                    is_greedy_schedule(edges, nodes, list, profile@, ProfilePolicy::RepeatLast, s)
                        && text@ == schedule_report(algorithm, table_text(records_of(s)))),
        }
    }
}

impl Cli {
    /// Where the graph of the command is to be found: in the text if the
    /// command names one, else in the file it names.
    pub fn source(&self) -> (r: Result<GraphSource, ProcessError>)
        ensures
            match r {
                Ok(GraphSource::Text(t)) => self.command.text() matches Some(x) && t@ == x@,
                Ok(GraphSource::File(f)) => self.command.text() is None && (
                self.command.file() matches Some(x) && f@ == x@),
                Err(ProcessError::NoSource { message }) => self.command.text() is None
                    && self.command.file() is None && message@ == self.command.complaint(),
                Err(_) => false,
            },
    {
        let (text, file, complaint) = match &self.command {
            Command::IsQuasiIntervalOrder { graph_str, file } => (
                graph_str,
                file,
                "All args are nones in IsQuasiIntervalOrder",
            ),
            Command::GetPriorityList { algorithm, graph_str, file } => (
                graph_str,
                file,
                "All graph sources are nones in GetPriorityList",
            ),
            Command::GetSchedule { algorithm, profile, graph_str, file } => (
                graph_str,
                file,
                "All graph sources are nones in GetSchedule",
            ),
        };
        match text {
            Some(t) => Ok(GraphSource::Text(String::from_str(t.as_str()))),
            None => match file {
                Some(f) => Ok(GraphSource::File(String::from_str(f.as_str()))),
                None => Err(ProcessError::NoSource { message: String::from_str(complaint) }),
            },
        }
    }

    /// Carries the command out on a graph.
    pub fn run(&self, graph: &PrecedenceGraph) -> (r: Result<String, ProcessError>)
        requires
            graph.wf(),
        ensures
            self.command.reports(graph.nodes(), graph.edges(), r),
    {
        match &self.command {
            Command::IsQuasiIntervalOrder { graph_str, file } => Ok(
                is_quasi_interval_order::is_quasi_interval_order(graph),
            ),
            Command::GetPriorityList { algorithm, graph_str, file } => Ok(
                get_priority_list::get_priority_list(graph, algorithm),
            ),
            Command::GetSchedule { algorithm, profile, graph_str, file } => {
                match get_schedule::get_schedule(graph, algorithm, profile) {
                    Ok(text) => Ok(text),
                    Err(e) => Err(ProcessError::Schedule(e)),
                }
            },
        }
    }

    /// Carries the command line out and gives the text to print. `content`
    /// is the text of the file that the command names, or `None` if the file
    /// was not read.
    pub fn process(&self, content: Option<&str>) -> (r: Result<String, ProcessError>)
        ensures
            match (self.command.text(), self.command.file()) {
                (Some(t), _) => match r {
                    Err(ProcessError::Text { graph, cause }) => graph@ == t@ && parses_to(
                        t@,
                        Err(cause),
                    ),
                    Err(ProcessError::File(_)) => false,
                    Err(ProcessError::NoSource { .. }) => false,
                    _ => exists|g: PrecedenceGraph| #[trigger]
                        parses_to(t@, Ok(g)) && self.command.reports(g.nodes(), g.edges(), r),
                },
                (None, Some(f)) => match r {
                    Err(ProcessError::File(FileParserError::FailedToReadFile { file })) => (content
                        is None) && file@ == f@,
                    Err(ProcessError::File(FileParserError::FailedToParse { content: text, file, cause })) => {
                        &&& content matches Some(c) && text@ == file_text(c@)
                        &&& file@ == f@
                        &&& parses_to(text@, Err(cause))
                    },
                    Err(ProcessError::Text { .. }) => false,
                    Err(ProcessError::NoSource { .. }) => false,
                    _ => content matches Some(c) && exists|g: PrecedenceGraph| #[trigger]
                        parses_to(file_text(c@), Ok(g)) && self.command.reports(
                            g.nodes(),
                            g.edges(),
                            r,
                        ),
                },
                (None, None) => r matches Err(ProcessError::NoSource { message }) && message@
                    == self.command.complaint(),
            },
    {
        match self.source() {
            Err(e) => Err(e),
            Ok(GraphSource::Text(t)) => match StringParser::parse(t.as_str()) {
                Err(cause) => Err(ProcessError::Text { graph: t, cause }),
                Ok(graph) => self.run(&graph),
            },
            Ok(GraphSource::File(f)) => match FileParser::parse(FileSource { file: f.as_str(), content }) {
                Err(cause) => Err(ProcessError::File(cause)),
                Ok(graph) => self.run(&graph),
            },
        }
    }
}

} // verus!
