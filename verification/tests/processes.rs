use sandlock_core::seccomp::process_index::{ExecutableImage, PidKey, ProcessIndex, RegisterFacts};
use sandlock_core::seccomp::state::PerProcessState;
use std::sync::Mutex;

type Index = ProcessIndex<Mutex<PerProcessState>>;

const SELF_PID: i32 = 4242;
const START: u64 = 900;

fn state() -> Mutex<PerProcessState> {
    Mutex::new(PerProcessState::default())
}

fn alone(start: u64) -> RegisterFacts {
    RegisterFacts { start_time: Some(start), tgid: None, ppid: None, parent_start: None, parent_image: None }
}

fn thread_of(leader: i32, start: u64) -> RegisterFacts {
    RegisterFacts { tgid: Some(leader), ..alone(start) }
}

fn child_of(pid: i32, parent: i32, parent_start: u64, image: Option<ExecutableImage>, start: u64) -> RegisterFacts {
    RegisterFacts {
        start_time: Some(start),
        tgid: Some(pid),
        ppid: Some(parent),
        parent_start: Some(parent_start),
        parent_image: image,
    }
}

fn image() -> Option<ExecutableImage> {
    Some(ExecutableImage { device: 8, inode: 99, kernel_path: b"/usr/bin/real".to_vec() })
}

fn other_image() -> Option<ExecutableImage> {
    Some(ExecutableImage { device: 8, inode: 100, kernel_path: b"/bin/sh".to_vec() })
}

#[test]
fn process_index_register_lookup_unregister() {
    let mut idx = Index::new();
    let key = idx.register(SELF_PID, &alone(START), state()).expect("register should succeed for live pid");
    assert_eq!(key.pid, SELF_PID);

    assert_eq!(idx.key_for(SELF_PID), Some(key));
    assert!(idx.contains(SELF_PID));
    assert!(idx.contains_current(SELF_PID, Some(START)));
    assert_eq!(idx.key_for(SELF_PID + 999_999), None);
    assert!(!idx.contains(SELF_PID + 999_999));
    assert_eq!(idx.len(), 1);
    assert_eq!(idx.max_pid(), Some(SELF_PID));
    assert!(idx.stage_virtual_executable(key, b"/usr/bin/current", Some(START), &image(), &image()));
    assert_eq!(idx.virtual_executable(SELF_PID, Some(START), &image()), Some(b"/usr/bin/current".to_vec()));

    idx.unregister(key);
    assert_eq!(idx.key_for(SELF_PID), None);
    assert_eq!(idx.virtual_executable(SELF_PID, Some(START), &image()), None);
    assert!(!idx.contains(SELF_PID));
    assert!(!idx.contains_current(SELF_PID, Some(START)));
    assert_eq!(idx.len(), 0);
    assert_eq!(idx.max_pid(), None);
}

#[test]
fn threads_of_one_process_share_one_cwd() {
    let mut idx = Index::new();
    let leader = SELF_PID;
    let tid = SELF_PID + 1;
    let leader_key = idx.register(leader, &alone(START), state()).expect("leader registers");
    assert!(idx.stage_virtual_executable(leader_key, b"/usr/bin/leader", Some(START), &image(), &image()));
    let tid_key = idx.register(tid, &thread_of(leader, START + 1), state()).expect("thread registers");

    idx.set_virtual_cwd(tid, Some(leader), b"/workspace");
    assert_eq!(idx.virtual_cwd(leader, Some(leader)), Some(b"/workspace".to_vec()));
    assert_eq!(idx.virtual_executable(tid, Some(START + 1), &image()), Some(b"/usr/bin/leader".to_vec()));
    assert!(idx.stage_virtual_executable(tid_key, b"/usr/bin/replaced", Some(START + 1), &image(), &image()));
    assert_eq!(idx.virtual_executable(leader, Some(START), &image()), Some(b"/usr/bin/replaced".to_vec()));
}

#[test]
fn an_unregistered_thread_uses_its_leader_cwd() {
    let mut idx = Index::new();
    let leader = SELF_PID;
    let tid = SELF_PID + 7;
    idx.register(leader, &alone(START), state()).expect("leader registers");
    assert!(!idx.contains(tid));

    idx.set_virtual_cwd(tid, Some(leader), b"/workspace");
    assert_eq!(idx.virtual_cwd(tid, Some(leader)), Some(b"/workspace".to_vec()));
    assert_eq!(idx.virtual_cwd(leader, Some(leader)), Some(b"/workspace".to_vec()));
    idx.clear_virtual_cwd(tid, Some(leader));
    assert_eq!(idx.virtual_cwd(leader, Some(leader)), None);
}

#[test]
fn a_child_copies_the_parent_cwd_instead_of_sharing_it() {
    let mut idx = Index::new();
    let parent = SELF_PID;
    let child = SELF_PID + 3;
    let parent_key = idx.register(parent, &alone(START), state()).expect("parent registers");
    idx.set_virtual_cwd(parent, Some(parent), b"/workspace");
    assert!(idx.stage_virtual_executable(parent_key, b"/usr/bin/parent", Some(START), &image(), &image()));

    let facts = child_of(child, parent, START, image(), START + 5);
    let child_key = idx.register(child, &facts, state()).expect("child registers");
    assert_eq!(idx.virtual_cwd(child, Some(child)), Some(b"/workspace".to_vec()));
    assert_eq!(idx.virtual_executable(child, Some(START + 5), &image()), Some(b"/usr/bin/parent".to_vec()));

    idx.set_virtual_cwd(child, Some(child), b"/tmp");
    assert_eq!(idx.virtual_cwd(parent, Some(parent)), Some(b"/workspace".to_vec()));
    assert!(idx.stage_virtual_executable(child_key, b"/usr/bin/child", Some(START + 5), &image(), &image()));
    assert_eq!(idx.virtual_executable(parent, Some(START), &image()), Some(b"/usr/bin/parent".to_vec()));
}

#[test]
fn process_index_register_overwrites_stale_entry_for_recycled_pid() {
    let mut idx = Index::new();
    let stale_key = idx.register(SELF_PID, &alone(0), state()).unwrap();
    assert_eq!(stale_key, PidKey { pid: SELF_PID, start_time: 0 });
    assert!(!idx.stage_virtual_executable(stale_key, b"/stale", Some(START), &image(), &image()));
    assert!(!idx.contains_current(SELF_PID, Some(START)));
    assert_eq!(idx.virtual_executable(SELF_PID, Some(START), &image()), None);

    let new_key = idx.register(SELF_PID, &alone(START), state()).unwrap();
    assert_ne!(new_key.start_time, 0);
    assert_eq!(idx.key_for(SELF_PID), Some(new_key));
    assert!(idx.contains_current(SELF_PID, Some(START)));
    assert_eq!(idx.virtual_executable(SELF_PID, Some(START), &image()), None);

    assert!(!idx.stage_virtual_executable(stale_key, b"/stale", Some(START), &image(), &image()));
    idx.unregister(stale_key);
    assert_eq!(idx.key_for(SELF_PID), Some(new_key));
    assert_eq!(idx.virtual_executable(SELF_PID, Some(START), &image()), None);
}

#[test]
fn process_index_entry_for_returns_shared_handle() {
    let mut idx = Index::new();
    let key = idx.register(SELF_PID, &alone(START), state()).unwrap();
    let (k1, s1) = idx.entry_for(SELF_PID).unwrap();
    let (k2, s2) = idx.entry_for(SELF_PID).unwrap();
    assert_eq!(k1, key);
    assert_eq!(k2, key);
    s1.lock().unwrap().brk_base = Some(0xdead_beef);
    assert_eq!(s2.lock().unwrap().brk_base, Some(0xdead_beef));
    idx.unregister(key);
    assert!(idx.entry_for(SELF_PID).is_none());
    assert_eq!(s1.lock().unwrap().brk_base, Some(0xdead_beef));
}

#[test]
fn process_index_pids_snapshot_is_independent() {
    let mut idx = Index::new();
    let key = idx.register(SELF_PID, &alone(START), state()).unwrap();
    let snap = idx.pids_snapshot();
    idx.unregister(key);
    assert!(snap.contains(&SELF_PID));
    assert!(!idx.contains(SELF_PID));
}

#[test]
fn process_index_prune_dead_drops_recycled_entries() {
    let mut idx = Index::new();
    idx.register(SELF_PID, &alone(0), state()).unwrap();
    for key in idx.dead_keys(&vec![Some(START)]) {
        idx.unregister(key);
    }
    assert!(!idx.contains(SELF_PID));
}

#[test]
fn process_index_prune_dead_keeps_live_entries() {
    let mut idx = Index::new();
    let key = idx.register(SELF_PID, &alone(START), state()).unwrap();
    assert!(idx.dead_keys(&vec![Some(START)]).is_empty());
    assert_eq!(idx.key_for(SELF_PID), Some(key));
    assert_eq!(idx.dead_keys(&vec![None]), vec![key]);
}

#[test]
fn a_process_that_is_gone_is_not_registered() {
    let mut idx = Index::new();
    let facts = RegisterFacts { start_time: None, ..alone(START) };
    assert!(idx.register(SELF_PID, &facts, state()).is_none());
    assert_eq!(idx.len(), 0);
}

#[test]
fn quota_slots_come_back_once() {
    let mut idx = Index::new();
    let (stale, displaced) = idx.register_with_process_slot(SELF_PID, Some(11), &alone(1), state()).unwrap();
    assert_eq!(displaced, None);
    let (fresh, displaced) = idx.register_with_process_slot(SELF_PID, Some(12), &alone(2), state()).unwrap();
    assert_eq!(displaced, Some(11));
    assert_eq!(idx.unregister(stale), None);
    assert_eq!(idx.unregister(fresh), Some(12));
    assert_eq!(idx.unregister(fresh), None);
}

#[test]
fn memory_is_accounted_to_the_leader() {
    let mut idx = Index::new();
    idx.register(SELF_PID, &alone(START), state()).unwrap();
    idx.register(SELF_PID + 1, &thread_of(SELF_PID, START + 1), state()).unwrap();
    idx.register(SELF_PID + 2, &thread_of(1, START + 2), state()).unwrap();
    idx.addr_space_state(SELF_PID + 1).unwrap().lock().unwrap().mem_charged = 64;
    assert_eq!(idx.addr_space_state(SELF_PID).unwrap().lock().unwrap().mem_charged, 64);
    assert_eq!(idx.addr_space_state(SELF_PID + 2).unwrap().lock().unwrap().mem_charged, 0);
    assert!(idx.addr_space_state(1).is_none());
    assert_eq!(idx.max_pid(), Some(SELF_PID + 2));
}

#[test]
fn a_failed_exec_keeps_the_running_image() {
    let mut idx = Index::new();
    let key = idx.register(SELF_PID, &alone(START), state()).unwrap();
    assert!(idx.stage_virtual_executable(key, b"/bin/first", Some(START), &image(), &image()));
    assert_eq!(idx.virtual_executable(SELF_PID, Some(START), &image()), Some(b"/bin/first".to_vec()));
    assert!(idx.stage_virtual_executable(key, b"/bin/second", Some(START), &other_image(), &image()));
    assert_eq!(idx.virtual_executable(SELF_PID, Some(START), &image()), Some(b"/bin/first".to_vec()));
    assert_eq!(idx.virtual_executable(SELF_PID, Some(START), &other_image()), None);
    assert!(!idx.stage_virtual_executable(key, b"/bin/third", Some(START), &None, &image()));
}

#[test]
fn traces_and_freezes_are_counted_together() {
    let mut idx = Index::new();
    idx.creation_trace_started();
    idx.creation_trace_started();
    idx.exec_freeze_started();
    assert_eq!(idx.active_ptrace_trackers(), 3);
    idx.creation_trace_finished();
    idx.exec_freeze_finished();
    assert_eq!(idx.active_creation_traces(), 1);
    assert_eq!(idx.active_exec_freezes(), 0);
}

#[test]
fn gone_and_replaced_processes_are_dead() {
    let mut idx = Index::new();
    let live = idx.register(10, &alone(100), state()).unwrap();
    let gone = idx.register(11, &alone(101), state()).unwrap();
    let replaced = idx.register(12, &alone(102), state()).unwrap();
    let times: Vec<Option<u64>> = idx
        .tracked_keys()
        .iter()
        .map(|key| match key.pid {
            10 => Some(100),
            11 => None,
            _ => Some(999),
        })
        .collect();
    let dead = idx.dead_keys(&times);
    assert_eq!(dead.len(), 2);
    assert!(dead.contains(&gone));
    assert!(dead.contains(&replaced));
    assert!(!dead.contains(&live));
}
