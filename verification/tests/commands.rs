use precedence_scheduling::algorithm::Algorithm;
use precedence_scheduling::command::get_priority_list::{get_priority_list, priority_list, write_list};
use precedence_scheduling::command::get_schedule::{
    create_schedule_table, get_schedule, schedule_by, schedule_records, slot_record,
};
use precedence_scheduling::command::is_quasi_interval_order::is_quasi_interval_order;
use precedence_scheduling::command::{Cli, Command, GraphSource, ProcessError};
use precedence_scheduling::graph::PrecedenceGraph;
use precedence_scheduling::parser::{FileParserError, GraphParser, StringParser, StringParserError};
use precedence_scheduling::schedule::ScheduleError;

fn graph(source: &str) -> PrecedenceGraph {
    match StringParser::parse(source) {
        Ok(g) => g,
        Err(e) => panic!("no graph: {:?}", e),
    }
}

fn text(v: Vec<char>) -> String {
    v.into_iter().collect()
}

#[test]
fn algorithms_have_their_names() {
    assert_eq!(Algorithm::Msf.name(), "MSF");
    assert_eq!(Algorithm::Cg.name(), "CG");
}

#[test]
fn the_order_is_reported_in_a_line() {
    assert_eq!(is_quasi_interval_order(&graph("(1,3)(2,3)")), "Graph is a quasi-interval order");
    assert_eq!(
        is_quasi_interval_order(&graph("(1,2)(3,4)")),
        "Graph is not a quasi-interval order"
    );
}

#[test]
fn lists_are_written_in_brackets() {
    assert_eq!(text(write_list(&vec![])), "[]");
    assert_eq!(text(write_list(&vec![7])), "[7]");
    assert_eq!(text(write_list(&vec![1, 20, 300])), "[1, 20, 300]");
    assert_eq!(text(write_list(&vec![1, 20, 300])), format!("{:?}", vec![1u128, 20, 300]));
}

#[test]
fn the_priority_list_is_reported_in_a_line() {
    let g = graph("(1,2)(1,3)");
    assert_eq!(priority_list(&g, &Algorithm::Msf), vec![1, 2, 3]);
    assert_eq!(priority_list(&g, &Algorithm::Cg), vec![1, 3, 2]);
    assert_eq!(
        get_priority_list(&g, &Algorithm::Msf),
        "Priority list using algorithm MSF: [1, 2, 3]"
    );
    assert_eq!(
        get_priority_list(&g, &Algorithm::Cg),
        "Priority list using algorithm CG: [1, 3, 2]"
    );
}

#[test]
fn a_slot_becomes_a_record() {
    assert_eq!(slot_record(&vec![Some(12), None, Some(3)]), vec!["3", "12", "-", "3"]);
    assert_eq!(slot_record(&vec![]), vec!["0"]);
    assert_eq!(
        schedule_records(&vec![vec![Some(1)], vec![Some(2), None]]),
        vec![vec!["1", "1"], vec!["2", "2", "-"]]
    );
}

#[test]
fn the_schedule_is_drawn_as_a_table() {
    let table = create_schedule_table(&vec![vec![Some(1)], vec![Some(2), Some(3)]]);
    println!("{}", table);
    assert_eq!(table, "┌───┬───┐\n│   │ 2 │\n├───┼───┤\n│ 1 │ 2 │\n├───┼───┤\n│   │ 3 │\n└───┴───┘");
}

#[test]
fn the_schedule_is_reported_as_a_table() {
    let g = graph("(1,2)(1,3)");
    assert_eq!(
        schedule_by(&g, &Algorithm::Msf, &vec![1, 2]),
        Ok(vec![vec![Some(1)], vec![Some(2), Some(3)]])
    );
    let report = match get_schedule(&g, &Algorithm::Msf, &vec![1, 2]) {
        Ok(r) => r,
        Err(e) => panic!("no schedule: {:?}", e),
    };
    let table = create_schedule_table(&vec![vec![Some(1)], vec![Some(2), Some(3)]]);
    assert_eq!(report, format!("Schedule using algorithm MSF:\n{}", table));
    assert_eq!(get_schedule(&g, &Algorithm::Cg, &vec![]), Err(ScheduleError::EmptyProfile));
}

#[test]
fn the_text_is_preferred_to_the_file() {
    let both = Cli {
        command: Command::IsQuasiIntervalOrder {
            graph_str: Some("(1,2)".to_string()),
            file: Some("g.txt".to_string()),
        },
    };
    assert_eq!(both.source(), Ok(GraphSource::Text("(1,2)".to_string())));
    let file = Cli {
        command: Command::GetPriorityList {
            algorithm: Algorithm::Cg,
            graph_str: None,
            file: Some("g.txt".to_string()),
        },
    };
    assert_eq!(file.source(), Ok(GraphSource::File("g.txt".to_string())));
}

#[test]
fn a_command_without_a_graph_is_refused() {
    let a = Cli { command: Command::IsQuasiIntervalOrder { graph_str: None, file: None } };
    assert_eq!(
        a.process(None),
        Err(ProcessError::NoSource {
            message: "All args are nones in IsQuasiIntervalOrder".to_string()
        })
    );
    let b = Cli {
        command: Command::GetPriorityList { algorithm: Algorithm::Msf, graph_str: None, file: None },
    };
    assert_eq!(
        b.source(),
        Err(ProcessError::NoSource {
            message: "All graph sources are nones in GetPriorityList".to_string()
        })
    );
    let c = Cli {
        command: Command::GetSchedule {
            algorithm: Algorithm::Msf,
            profile: vec![1],
            graph_str: None,
            file: None,
        },
    };
    assert_eq!(
        c.process(Some("(1,2)")),
        Err(ProcessError::NoSource {
            message: "All graph sources are nones in GetSchedule".to_string()
        })
    );
}

#[test]
fn commands_are_carried_out_on_a_text() {
    let order = Cli {
        command: Command::IsQuasiIntervalOrder { graph_str: Some("(1,2)(3,4)".to_string()), file: None },
    };
    assert_eq!(order.process(None), Ok("Graph is not a quasi-interval order".to_string()));
    let list = Cli {
        command: Command::GetPriorityList {
            algorithm: Algorithm::Msf,
            graph_str: Some("(1,2)(1,3)".to_string()),
            file: None,
        },
    };
    assert_eq!(
        list.process(None),
        Ok("Priority list using algorithm MSF: [1, 2, 3]".to_string())
    );
    assert_eq!(
        list.run(&graph("(5,6)")),
        Ok("Priority list using algorithm MSF: [5, 6]".to_string())
    );
    let schedule = Cli {
        command: Command::GetSchedule {
            algorithm: Algorithm::Cg,
            profile: vec![1, 1, 1],
            graph_str: Some("(1,2)(2,3)".to_string()),
            file: None,
        },
    };
    let table = create_schedule_table(&vec![vec![Some(1)], vec![Some(2)], vec![Some(3)]]);
    assert_eq!(
        schedule.process(None),
        Ok(format!("Schedule using algorithm CG:\n{}", table))
    );
}

#[test]
fn commands_are_carried_out_on_a_file() {
    let list = Cli {
        command: Command::GetPriorityList {
            algorithm: Algorithm::Cg,
            graph_str: None,
            file: Some("g.txt".to_string()),
        },
    };
    assert_eq!(
        list.process(Some("(1,2)\r\n(1,3)\r\n")),
        Ok("Priority list using algorithm CG: [1, 3, 2]".to_string())
    );
    assert_eq!(
        list.process(None),
        Err(ProcessError::File(FileParserError::FailedToReadFile { file: "g.txt".to_string() }))
    );
}

#[test]
fn failures_are_handed_on() {
    let bad = Cli {
        command: Command::IsQuasiIntervalOrder { graph_str: Some("(1,x)".to_string()), file: None },
    };
    assert_eq!(
        bad.process(None),
        Err(ProcessError::Text {
            graph: "(1,x)".to_string(),
            cause: StringParserError::NodeIsNotNumber { node: "x".to_string() },
        })
    );
    let stuck = Cli {
        command: Command::GetSchedule {
            algorithm: Algorithm::Msf,
            profile: vec![1, 0],
            graph_str: Some("(1,2)(2,3)".to_string()),
            file: None,
        },
    };
    assert_eq!(stuck.process(None), Err(ProcessError::Schedule(ScheduleError::EmptyProfile)));
}
