use brane::meta_type::StoreValueId;
use brane::stable_table::{StableTable, StableTableKey};
use brane::task::{
    format_cycle, TaskDataArg, TaskGraph, TaskGraphSortError, TaskHandle, TaskInstance, TaskQueueArg,
};
use brane::Runtime;

fn data(i: usize) -> StoreValueId {
    StoreValueId(StableTableKey { index: i, version: 0 })
}

fn arg(of: TaskHandle) -> TaskDataArg {
    TaskDataArg { result_of: of, last_frame: false, byte_offset: 0, byte_size: 4 }
}

fn handle(index: usize) -> TaskHandle {
    TaskHandle(StableTableKey { index, version: 0 })
}

fn instance(args: Vec<TaskDataArg>, queues: usize) -> TaskInstance {
    let mut qs = Vec::new();
    for _ in 0..queues {
        qs.push(TaskQueueArg { queue_id: (), byte_offset: 0, byte_size: 0 });
    }
    TaskInstance { args, queues: qs, data: data(0), stage: 0, last_frame_data: None }
}

fn table(tasks: Vec<TaskInstance>) -> StableTable<TaskHandle, TaskInstance> {
    let mut t = StableTable::new();
    for task in tasks {
        t.add(task);
    }
    t
}

#[test]
fn empty_graph_sorts() {
    let mut runtime = Runtime::new();
    assert!(runtime.main_graph.sort().is_ok());
}

#[test]
fn acyclic_graph_sorts() {
    // Mirrors the editor: three constants, an add and a divide.
    let mut graph = TaskGraph::new();
    let a = graph.add_task(data(0), vec![], vec![]);
    let b = graph.add_task(data(1), vec![], vec![]);
    let c = graph.add_task(data(2), vec![], vec![]);
    let add = graph.add_task(data(3), vec![arg(a), arg(b)], vec![]);
    let div = graph.add_task(data(4), vec![arg(add), arg(c)], vec![]);
    assert_eq!(div, handle(4));
    assert_eq!(graph.result_of(div), data(4));
    assert!(graph.sort().is_ok());
}

#[test]
fn stages_follow_longest_dependency_chain() {
    let tasks = table(vec![
        instance(vec![], 0),
        instance(vec![], 0),
        instance(vec![arg(handle(0)), arg(handle(1))], 0),
        instance(vec![arg(handle(2)), arg(handle(0))], 0),
        instance(vec![], 1),
    ]);
    let mut placed = vec![None; 5];
    assert_eq!(TaskGraph::resolve_node_placement(handle(3), &tasks, &mut placed).ok(), Some(2));
    assert_eq!(placed, vec![Some(0), Some(0), Some(1), Some(2), None]);
    // A task with queues but no arguments sits in stage 1.
    assert_eq!(TaskGraph::resolve_node_placement(handle(4), &tasks, &mut placed).ok(), Some(1));
    // Resolving a placed task gives its stage again.
    assert_eq!(TaskGraph::resolve_node_placement(handle(2), &tasks, &mut placed).ok(), Some(1));
}

#[test]
fn placement_does_not_depend_on_order() {
    let tasks = table(vec![
        instance(vec![], 0),
        instance(vec![arg(handle(0))], 0),
        instance(vec![arg(handle(1)), arg(handle(0))], 0),
    ]);
    let mut forward = vec![None; 3];
    for i in 0..3 {
        TaskGraph::resolve_node_placement(handle(i), &tasks, &mut forward).ok().unwrap();
    }
    let mut backward = vec![None; 3];
    for i in (0..3).rev() {
        TaskGraph::resolve_node_placement(handle(i), &tasks, &mut backward).ok().unwrap();
    }
    assert_eq!(forward, backward);
    assert_eq!(forward, vec![Some(0), Some(1), Some(2)]);
}

#[test]
fn cycle_is_reported() {
    let tasks = table(vec![
        instance(vec![arg(handle(2))], 0),
        instance(vec![arg(handle(0))], 0),
        instance(vec![arg(handle(1))], 0),
    ]);
    let mut placed = vec![None; 3];
    match TaskGraph::resolve_node_placement(handle(0), &tasks, &mut placed) {
        Err(TaskGraphSortError::CycleDetected { cycle }) => {
            assert_eq!(cycle, vec![handle(2), handle(1), handle(0), handle(2)]);
        }
        Ok(_) => panic!("cycle not found"),
    }
}

#[test]
fn self_loop_is_a_cycle() {
    let tasks = table(vec![instance(vec![arg(handle(0))], 0)]);
    let mut placed = vec![None; 1];
    match TaskGraph::resolve_node_placement(handle(0), &tasks, &mut placed) {
        Err(TaskGraphSortError::CycleDetected { cycle }) => {
            assert_eq!(cycle, vec![handle(0), handle(0)]);
        }
        Ok(_) => panic!("cycle not found"),
    }
}

#[test]
fn cycle_message_lists_slots() {
    assert_eq!(format_cycle(&[handle(3), handle(12), handle(3)]), "3 -> 12 -> 3");
    assert_eq!(format_cycle(&[]), "");
    let err = TaskGraphSortError::CycleDetected { cycle: vec![handle(0), handle(0)] };
    assert_eq!(err.message(), "Cycle detected in task graph: 0 -> 0");
}

fn last_frame_arg(of: TaskHandle) -> TaskDataArg {
    TaskDataArg { result_of: of, last_frame: true, byte_offset: 0, byte_size: 4 }
}

fn stage_lists(graph: &TaskGraph) -> Vec<Vec<TaskHandle>> {
    graph.get_stages().iter().map(|s| s.tasks.clone()).collect()
}

#[test]
fn reading_own_last_frame_output_is_no_cycle() {
    let mut graph = TaskGraph::new();
    let me = graph.next_task_handle();
    let counter = graph.add_task(data(0), vec![last_frame_arg(me)], vec![]);
    assert_eq!(counter, me);
    assert!(graph.sort().is_ok());
    // It reads an argument, so it runs in stage 1.
    assert_eq!(stage_lists(&graph), vec![vec![], vec![counter]]);
    let tasks = table(vec![instance(vec![last_frame_arg(handle(0))], 0)]);
    let mut placed = vec![None; 1];
    assert_eq!(TaskGraph::resolve_node_placement(handle(0), &tasks, &mut placed).ok(), Some(1));
}

#[test]
fn sort_fills_stages_in_dependency_order() {
    let mut graph = TaskGraph::new();
    let a = graph.add_task(data(0), vec![], vec![]);
    let b = graph.add_task(data(1), vec![], vec![]);
    let add = graph.add_task(data(2), vec![arg(a), arg(b)], vec![]);
    let div = graph.add_task(data(3), vec![arg(add), arg(a)], vec![]);
    let fed_back = graph.add_task(data(4), vec![arg(div)], vec![]);
    assert!(graph.sort().is_ok());
    assert_eq!(stage_lists(&graph), vec![vec![a, b], vec![add], vec![div], vec![fed_back]]);
}

#[test]
fn empty_graph_has_no_stages() {
    let mut graph = TaskGraph::new();
    assert!(graph.sort().is_ok());
    assert!(stage_lists(&graph).is_empty());
}

#[test]
fn task_inputs_route_outputs() {
    let mut graph = TaskGraph::new();
    let a = graph.add_task(data(10), vec![], vec![]);
    let b = graph.add_task(data(11), vec![], vec![]);
    let sum = graph.add_task(data(12), vec![arg(a), arg(b), arg(a)], vec![]);
    assert_eq!(graph.task_inputs(sum), Some((vec![data(10), data(11), data(10)], data(12))));
    assert_eq!(graph.task_inputs(a), Some((vec![], data(10))));
    // No output of the last evaluation is kept yet.
    let me = graph.next_task_handle();
    let counter = graph.add_task(data(13), vec![last_frame_arg(me)], vec![]);
    assert_eq!(graph.task_inputs(counter), None);
    assert_eq!(graph.task_inputs(handle(9)), None);
}
