use xmip_core_observe::run::{Run, RunList};

#[test]
fn each_list_of_a_run_is_read_by_its_number() {
    let run = Run {
        cluster: "C1".to_string(),
        tests: vec!["round-trip".to_string()],
        nodes: vec!["R1".to_string(), "S1".to_string()],
        capabilities: vec!["R1=receive".to_string()],
        online: Vec::new(),
        stress: "calm".to_string(),
    };
    let lengths: Vec<usize> = RunList::ALL.iter().map(|which| run.list(*which).len()).collect();
    assert_eq!(lengths, [1, 2, 1, 0]);
    assert_eq!(run.list(RunList::Nodes)[1], "S1");
    assert_eq!(run.list(RunList::Capabilities), ["R1=receive".to_string()]);
    assert!(Run::default().list(RunList::Tests).is_empty());
}
