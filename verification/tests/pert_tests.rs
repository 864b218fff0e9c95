use pert::dot::PertDot;
use pert::load::{parse_u32, DataLoader};
use pert::pert::{end_node, start_node, Event, Pert, PertError, Task};

fn schedule(input: &[u8]) -> Pert {
    DataLoader::from_bytes(input)
        .expect("rows should load")
        .to_graph()
        .expect("network should schedule")
}

fn schedule_err(input: &[u8]) -> PertError {
    match DataLoader::from_bytes(input).expect("rows should load").to_graph() {
        Ok(_) => panic!("network should be rejected"),
        Err(e) => e,
    }
}

fn event_index(p: &Pert, label: u32) -> usize {
    let n = p.event_count();
    let mut i = 0;
    while i < n {
        if p.event(i).label == label {
            return i;
        }
        i += 1;
    }
    panic!("no event with label {}", label);
}

fn task_index(p: &Pert, name: &str) -> usize {
    let m = p.task_count();
    let mut j = 0;
    while j < m {
        if p.task(j).name == name {
            return j;
        }
        j += 1;
    }
    panic!("no task named {}", name);
}

#[test]
fn linear_chain_end_time_and_critical_task() {
    let p = schedule(b"1,2,1,t1\n2,3,3,t2\n");
    let end = event_index(&p, 3);
    assert_eq!(p.event(end).fastest_begin, 4);
    assert_eq!(p.event(end).latest_finish, 4);
    let t1 = p.task(task_index(&p, "t1"));
    assert_eq!(t1.total_float, 0);
    assert!(t1.is_critical_path());
    assert!(!t1.is_dummy_path());
}

#[test]
fn diamond_times_and_floats() {
    let p = schedule(b"1,2,1,a\n1,3,5,b\n2,3,2,c\n3,4,3,d\n");
    assert_eq!(p.event(event_index(&p, 4)).fastest_begin, 8);
    let a = p.task(task_index(&p, "a"));
    assert_eq!(a.total_float, 2);
    assert_eq!(a.free_float, 0);
    assert!(!a.is_critical_path());
    let b = p.task(task_index(&p, "b"));
    assert_eq!(b.total_float, 0);
    assert!(b.is_critical_path());
    let c = p.task(task_index(&p, "c"));
    assert_eq!(c.total_float, 2);
    assert_eq!(c.free_float, 2);
    let d = p.task(task_index(&p, "d"));
    assert_eq!(d.total_float, 0);
    assert_eq!(d.free_float, 0);
    assert!(d.is_critical_path());
}

#[test]
fn diamond_node_times() {
    let p = schedule(b"1,2,1,a\n1,3,5,b\n2,3,2,c\n3,4,3,d\n");
    let n2 = p.event(event_index(&p, 2));
    assert_eq!(n2.fastest_begin, 1);
    assert_eq!(n2.latest_finish, 3);
    let n3 = p.event(event_index(&p, 3));
    assert_eq!(n3.fastest_begin, 5);
    assert_eq!(n3.latest_finish, 5);
    let n4 = p.event(event_index(&p, 4));
    assert_eq!(n4.latest_finish, n4.fastest_begin);
}

#[test]
fn free_float_at_most_total_float() {
    let p = schedule(b"1,2,1,a\n1,3,5,b\n2,3,2,c\n3,4,3,d\n2,4,1,e\n");
    let m = p.task_count();
    for j in 0..m {
        let t = p.task(j);
        assert!(t.free_float <= t.total_float, "task {}", t.name);
    }
}

#[test]
fn duplicate_start_rejected() {
    assert_eq!(
        schedule_err(b"1,3,1,a\n2,3,1,b\n"),
        PertError::DuplicateStartNodeError
    );
}

#[test]
fn duplicate_end_rejected() {
    assert_eq!(
        schedule_err(b"1,2,1,a\n1,3,1,b\n"),
        PertError::DuplicateEndNodeError
    );
}

#[test]
fn missing_start_rejected() {
    assert_eq!(schedule_err(b"1,2,1,a\n2,1,1,b\n"), PertError::NoStartNodeError);
}

#[test]
fn missing_end_rejected() {
    assert_eq!(
        schedule_err(b"1,2,1,a\n2,3,1,b\n3,2,1,c\n"),
        PertError::NoEndNodeError
    );
}

#[test]
fn cyclic_network_rejected() {
    assert_eq!(
        schedule_err(b"1,2,1,a\n2,3,1,b\n3,2,1,c\n2,4,1,d\n"),
        PertError::CyclicNetworkError
    );
}

#[test]
fn empty_input_has_no_start_node() {
    assert_eq!(schedule_err(b""), PertError::NoStartNodeError);
}

#[test]
fn dummy_edge_on_critical_path() {
    let p = schedule(b"1,2,0,link\n2,3,5,work\n");
    let link = p.task(task_index(&p, "link"));
    assert!(link.is_dummy_path());
    assert!(link.is_critical_path());
    assert_eq!(link.duration, 0);
    assert_eq!(link.total_float, 0);
}

#[test]
fn dummy_edge_off_critical_path() {
    let p = schedule(b"1,2,0,slack\n1,2,7,work\n2,3,1,tail\n");
    let slack = p.task(task_index(&p, "slack"));
    assert!(slack.is_dummy_path());
    assert!(!slack.is_critical_path());
    assert_eq!(slack.total_float, 7);
}

#[test]
fn parallel_tasks_are_kept() {
    let p = schedule(b"1,2,3,fast\n1,2,5,slow\n");
    assert_eq!(p.task_count(), 2);
    assert_eq!(p.event_count(), 2);
    let fast = p.task(task_index(&p, "fast"));
    assert_eq!(fast.total_float, 2);
    let slow = p.task(task_index(&p, "slow"));
    assert_eq!(slow.total_float, 0);
}

#[test]
fn wide_times_do_not_overflow() {
    let p = schedule(b"1,2,4294967295,big\n2,3,4294967295,big2\n");
    let end = p.event(event_index(&p, 3));
    assert_eq!(end.fastest_begin, 8589934590);
}

#[test]
fn malformed_wrong_arity() {
    assert_eq!(
        DataLoader::from_bytes(b"1,2,3\n").unwrap_err(),
        PertError::MalformedRowError
    );
}

#[test]
fn malformed_non_numeric() {
    assert_eq!(
        DataLoader::from_bytes(b"a,2,3,name\n").unwrap_err(),
        PertError::MalformedRowError
    );
}

#[test]
fn malformed_negative_number() {
    assert_eq!(
        DataLoader::from_bytes(b"-1,2,3,name\n").unwrap_err(),
        PertError::MalformedRowError
    );
}

#[test]
fn malformed_too_large_number() {
    assert_eq!(
        DataLoader::from_bytes(b"4294967296,2,3,name\n").unwrap_err(),
        PertError::MalformedRowError
    );
}

#[test]
fn malformed_invalid_text() {
    assert_eq!(
        DataLoader::from_bytes(b"1,2,3,\xff\xfe\n").unwrap_err(),
        PertError::MalformedRowError
    );
}

#[test]
fn fields_are_trimmed() {
    let dl = DataLoader::from_bytes(b" 1 , 2 , 3 , hello world \n").unwrap();
    assert_eq!(dl.rows.len(), 1);
    assert_eq!(dl.rows[0].from, 1);
    assert_eq!(dl.rows[0].to, 2);
    assert_eq!(dl.rows[0].weight, 3);
    assert_eq!(dl.rows[0].name, "hello world");
}

#[test]
fn loads_largest_duration() {
    let dl = DataLoader::from_bytes(b"1,2,4294967295,max\n").unwrap();
    assert_eq!(dl.rows[0].weight, 4294967295);
}

#[test]
fn parse_u32_exact_values() {
    assert_eq!(parse_u32("0"), Some(0));
    assert_eq!(parse_u32("42"), Some(42));
    assert_eq!(parse_u32("4294967295"), Some(4294967295));
    assert_eq!(parse_u32("4294967296"), None);
    assert_eq!(parse_u32(""), None);
    assert_eq!(parse_u32("12a"), None);
    assert_eq!(parse_u32("-3"), None);
}

#[test]
fn start_and_end_node_queries() {
    let p = schedule(b"1,2,1,t1\n2,3,3,t2\n");
    let s = start_node(&p.0).unwrap();
    let e = end_node(&p.0).unwrap();
    assert_eq!(p.event(s).label, 1);
    assert_eq!(p.event(e).label, 3);
    assert_eq!(p.event(s).fastest_begin, 0);
}

#[test]
fn render_linear_chain_exactly() {
    let p = schedule(b"1,2,1,t1\n2,3,3,t2\n");
    let out = PertDot::new(&p.0).render();
    let expected = "digraph PERT {\n    graph [rankdir = \"LR\"];\n    0 [label=\"1\\l0..0\"]\n    1 [label=\"2\\l1..1\"]\n    2 [label=\"3\\l4..4\"]\n    0 -> 1 [label=\"t1(1)\\lT: 0 / F: 0\", style=bold]\n    1 -> 2 [label=\"t2(3)\\lT: 0 / F: 0\", style=bold]\n}\n";
    assert_eq!(out, expected);
}

#[test]
fn render_escapes_quotes_and_backslashes() {
    let p = schedule(b"1,2,1,say \"hi\" \\ there\n2,3,1,next\n");
    let out = PertDot::new(&p.0).render();
    assert!(out.contains("say \\\"hi\\\" \\\\ there"));
    assert!(!out.contains("say \"hi\""));
}

#[test]
fn render_has_no_raw_line_break_inside_labels() {
    let p = schedule(b"1,2,1,t1\n2,3,3,t2\n");
    let out = PertDot::new(&p.0).render();
    for line in out.lines() {
        if let Some(start) = line.find("[label=\"") {
            let rest = &line[start + 8..];
            let close = rest.find('"').map(|k| !rest[..k].contains('\n')).unwrap_or(false);
            assert!(close, "label not closed on one line: {}", line);
        }
    }
}

#[test]
fn render_marks_dummy_edges_dashed() {
    let p = schedule(b"1,2,0,link\n2,3,5,work\n");
    let out = PertDot::new(&p.0).render();
    assert!(out.contains("style=dashed"));
    assert!(out.contains("style=bold"));
}

#[test]
fn task_new_starts_with_zero_floats() {
    let t = Task::new("setup", 7);
    assert_eq!(t.name, "setup");
    assert_eq!(t.duration, 7);
    assert_eq!(t.total_float, 0);
    assert_eq!(t.free_float, 0);
    assert!(!t.is_dummy_path());
    assert!(t.is_critical_path());
}

#[test]
fn event_new_starts_at_zero() {
    let e = Event::new(&9);
    assert_eq!(e.label, 9);
    assert_eq!(e.fastest_begin, 0);
    assert_eq!(e.latest_finish, 0);
}

#[test]
fn error_messages() {
    assert_eq!(PertError::NoStartNodeError.message(), "Start node is not exist");
    assert_eq!(PertError::DuplicateStartNodeError.message(), "Start node is duplicated");
    assert_eq!(PertError::NoEndNodeError.message(), "End node is not exist");
    assert_eq!(PertError::DuplicateEndNodeError.message(), "End node is duplicated");
}

#[test]
fn single_task_network() {
    let p = schedule(b"10,20,5,only\n");
    assert_eq!(p.event_count(), 2);
    assert_eq!(p.event(event_index(&p, 20)).fastest_begin, 5);
    let only = p.task(0);
    assert_eq!(only.total_float, 0);
    assert_eq!(only.free_float, 0);
}

#[test]
fn handles_carriage_return_line_endings() {
    let dl = DataLoader::from_bytes(b"1,2,1,a\r\n2,3,1,b\r\n").unwrap();
    assert_eq!(dl.rows.len(), 2);
    assert_eq!(dl.rows[0].name, "a");
    assert_eq!(dl.rows[1].to, 3);
}

#[test]
fn quoted_field_may_hold_a_comma() {
    let dl = DataLoader::from_bytes(b"1,2,3,\"x, y\"\n").unwrap();
    assert_eq!(dl.rows.len(), 1);
    assert_eq!(dl.rows[0].name, "x, y");
}
