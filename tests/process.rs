use sysmon::process::{row_precedes, sort_processes, text_less, ProcessInfo, ProcessSort};
use sysmon::search::{matches_folded, matches_search};
use sysmon::tree::{build_process_tree, path_less};

fn row(pid: u32, name: &str, mem: u64, parent: Option<u32>) -> ProcessInfo {
    ProcessInfo {
        pid,
        name: name.to_string(),
        user: "root".to_string(),
        cmd: String::new(),
        cpu: 0,
        mem_bytes: mem,
        parent,
        indent: 0,
    }
}

fn pids(rows: &[ProcessInfo]) -> Vec<u32> {
    rows.iter().map(|p| p.pid).collect()
}

#[test]
fn sort_by_memory_both_directions() {
    let rows = vec![row(1, "a", 500, None), row(2, "b", 900, None), row(3, "c", 100, None)];
    let desc = sort_processes(rows.clone(), ProcessSort::Memory, true);
    assert_eq!(pids(&desc), vec![2, 1, 3]);
    let asc = sort_processes(rows, ProcessSort::Memory, false);
    assert_eq!(pids(&asc), vec![3, 1, 2]);
}

#[test]
fn sort_is_stable_on_ties() {
    let rows = vec![row(5, "a", 10, None), row(3, "b", 20, None), row(9, "c", 10, None)];
    let asc = sort_processes(rows.clone(), ProcessSort::Memory, false);
    assert_eq!(pids(&asc), vec![5, 9, 3]);
    let desc = sort_processes(rows, ProcessSort::Memory, true);
    assert_eq!(pids(&desc), vec![3, 5, 9]);
}

#[test]
fn sort_by_name_and_cpu() {
    let mut rows = vec![row(1, "zsh", 0, None), row(2, "bash", 0, None), row(3, "bas", 0, None)];
    rows[0].cpu = 250;
    rows[1].cpu = 9000;
    rows[2].cpu = 10;
    let by_name = sort_processes(rows.clone(), ProcessSort::Name, false);
    assert_eq!(pids(&by_name), vec![3, 2, 1]);
    let by_cpu = sort_processes(rows, ProcessSort::Cpu, true);
    assert_eq!(pids(&by_cpu), vec![2, 1, 3]);
}

#[test]
fn text_and_path_orders() {
    assert!(text_less("abc", "abd"));
    assert!(text_less("ab", "abc"));
    assert!(!text_less("abc", "abc"));
    assert!(text_less("Z", "a"));
    assert!(path_less(&vec![1, 2], &vec![1, 2, 0]));
    assert!(path_less(&vec![1, 9], &vec![2]));
    assert!(!path_less(&vec![3], &vec![3]));
    let a = row(1, "a", 5, None);
    let b = row(2, "b", 7, None);
    assert!(row_precedes(&a, &b, ProcessSort::Memory, false));
    assert!(row_precedes(&b, &a, ProcessSort::Memory, true));
    assert!(!row_precedes(&a, &b, ProcessSort::Tree, false));
}

#[test]
fn search_matches_pid_digits() {
    let rows = vec![row(17, "a", 0, None), row(27, "b", 0, None), row(3, "c", 0, None)];
    let hits: Vec<u32> = rows.iter().filter(|p| matches_search("7", &p.name, p.pid)).map(|p| p.pid).collect();
    assert_eq!(hits, vec![17, 27]);
}

#[test]
fn search_ignores_case_and_empty_matches_all() {
    assert!(matches_search("FIRE", "Firefox", 10));
    assert!(matches_search("fox", "FIREFOX", 10));
    assert!(!matches_search("chrome", "Firefox", 10));
    assert!(matches_search("", "x", 1));
    assert!(matches_folded("ref", "firefox", 4));
    assert!(!matches_folded("REF", "firefox", 4));
    assert!(matches_folded("04", "x", 1204));
}

#[test]
fn tree_orders_roots_and_children_by_pid() {
    let rows = vec![
        row(10, "child-b", 0, Some(1)),
        row(5, "root-b", 0, None),
        row(1, "root-a", 0, None),
        row(7, "child-a", 0, Some(1)),
        row(20, "grandchild", 0, Some(7)),
        row(30, "orphan", 0, Some(999)),
    ];
    let tree = build_process_tree(rows);
    assert_eq!(pids(&tree), vec![1, 7, 20, 10, 5, 30]);
    let indents: Vec<usize> = tree.iter().map(|p| p.indent).collect();
    assert_eq!(indents, vec![0, 1, 2, 1, 0, 0]);
}

#[test]
fn tree_visits_cycles_once_as_roots() {
    let rows = vec![
        row(4, "a", 0, Some(6)),
        row(6, "b", 0, Some(4)),
        row(2, "c", 0, None),
        row(8, "self", 0, Some(8)),
        row(9, "d", 0, Some(2)),
    ];
    let tree = build_process_tree(rows);
    assert_eq!(pids(&tree), vec![2, 9, 4, 6, 8]);
    let indents: Vec<usize> = tree.iter().map(|p| p.indent).collect();
    assert_eq!(indents, vec![0, 1, 0, 0, 0]);
}

#[test]
fn tree_of_empty_table() {
    assert!(build_process_tree(Vec::new()).is_empty());
}
