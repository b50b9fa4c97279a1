use redis_clone::raft_node::{
    kth_smallest, AppendEntriesRequest, AppendEntriesResponse, Effect, LogEntry, NodeState,
    ProposeError, RaftNode, VoteRequest, VoteResponse,
};
use redis_clone::raft_storage::RaftStorage;

fn entry(term: u64, index: u64, cmd: &str) -> LogEntry {
    LogEntry { term, index, command: cmd.as_bytes().to_vec() }
}

fn node(peers: &[&str]) -> RaftNode {
    RaftNode::new(1, peers.iter().map(|p| p.to_string()).collect(), 0, None, Vec::new())
}

fn vote(term: u64, candidate: u64) -> VoteRequest {
    VoteRequest { term, candidate_id: candidate, last_log_index: 0, last_log_term: 0 }
}

#[test]
fn new_node_is_a_follower_and_merges_duplicate_peers() {
    let n = node(&["a:1", "b:2", "a:1"]);
    assert_eq!(n.state, NodeState::Follower);
    assert_eq!(n.commit_index, 0);
    assert_eq!(n.peer_count(), 2);
    assert_eq!(n.peer_addr(0), "a:1");
    assert_eq!(n.peer_addr(1), "b:2");
}

#[test]
fn vote_is_granted_once_per_term() {
    let mut n = node(&["a", "b"]);
    let (resp, effects) = n.request_vote(&vote(3, 2));
    assert!(resp.vote_granted);
    assert_eq!(resp.term, 3);
    assert_eq!(n.current_term, 3);
    assert_eq!(n.voted_for, Some(2));
    assert!(matches!(effects[0], Effect::SaveMetadata { term: 3, voted_for: None }));
    assert!(matches!(effects[1], Effect::SaveMetadata { term: 3, voted_for: Some(2) }));
    assert!(matches!(effects[2], Effect::ResetElectionTimer));

    let (resp, effects) = n.request_vote(&vote(3, 3));
    assert!(!resp.vote_granted);
    assert!(effects.is_empty());
    assert_eq!(n.voted_for, Some(2));

    let (resp, _) = n.request_vote(&vote(3, 2));
    assert!(resp.vote_granted);

    let (resp, _) = n.request_vote(&vote(2, 3));
    assert!(!resp.vote_granted);
    assert_eq!(resp.term, 3);
}

#[test]
fn heartbeat_appends_and_commits() {
    let mut n = node(&["a"]);
    let req = AppendEntriesRequest {
        term: 2,
        leader_id: 7,
        prev_log_index: 0,
        prev_log_term: 0,
        leader_commit: 5,
        entries: vec![entry(2, 1, "SET a 1"), entry(2, 2, "SET b 2")],
    };
    let (resp, effects) = n.append_entries(req);
    assert!(resp.success);
    assert_eq!(resp.term, 2);
    assert_eq!(n.log.len(), 2);
    assert_eq!(n.commit_index, 2);
    assert_eq!(n.state, NodeState::Follower);
    assert_eq!(effects.len(), 6);
    assert!(matches!(effects[0], Effect::SaveMetadata { term: 2, voted_for: None }));
    assert!(matches!(effects[1], Effect::ResetElectionTimer));
    assert!(matches!(effects[2], Effect::PersistEntry(_)));
    assert!(matches!(effects[3], Effect::PersistEntry(_)));
    // Both committed entries reach the store, in order.
    match &effects[4] {
        Effect::Apply(cmd) => assert_eq!(cmd, &b"SET a 1".to_vec()),
        _ => panic!("expected Apply"),
    }
    match &effects[5] {
        Effect::Apply(cmd) => assert_eq!(cmd, &b"SET b 2".to_vec()),
        _ => panic!("expected Apply"),
    }

    // Entries already held are not appended again.
    let req = AppendEntriesRequest {
        term: 2,
        leader_id: 7,
        prev_log_index: 0,
        prev_log_term: 0,
        leader_commit: 2,
        entries: vec![entry(2, 2, "SET b 2")],
    };
    let mut req = req;
    req.prev_log_index = 1;
    req.prev_log_term = 2;
    let (resp, effects) = n.append_entries(req);
    assert!(resp.success);
    assert_eq!(n.log.len(), 2);
    assert_eq!(effects.len(), 1);
}

#[test]
fn stale_heartbeat_is_refused() {
    let mut n = node(&[]);
    n.request_vote(&vote(5, 9));
    let req = AppendEntriesRequest {
        term: 4,
        leader_id: 7,
        prev_log_index: 0,
        prev_log_term: 0,
        leader_commit: 0,
        entries: vec![entry(4, 1, "x")],
    };
    let (resp, effects) = n.append_entries(req);
    assert!(!resp.success);
    assert_eq!(resp.term, 5);
    assert!(effects.is_empty());
    assert!(n.log.is_empty());
}

#[test]
fn election_with_majority_makes_a_leader() {
    let mut n = node(&["a", "b"]);
    let (req, effect, mut tally) = n.start_election();
    assert_eq!(req.term, 1);
    assert_eq!(req.candidate_id, 1);
    assert!(matches!(effect, Effect::SaveMetadata { term: 1, voted_for: Some(1) }));
    assert_eq!(n.state, NodeState::Candidate);
    assert_eq!(tally.total, 3);
    assert_eq!(tally.majority, 2);
    assert!(n.record_vote(&mut tally, &VoteResponse { term: 1, vote_granted: true }).is_none());
    assert_eq!(tally.votes, 2);
    assert!(matches!(n.finish_election(&tally), Some(Effect::StartHeartbeats)));
    assert_eq!(n.state, NodeState::Leader);
}

#[test]
fn election_steps_down_on_newer_term() {
    let mut n = node(&["a", "b"]);
    let (_, _, mut tally) = n.start_election();
    let stepped = n.record_vote(&mut tally, &VoteResponse { term: 9, vote_granted: false });
    assert!(matches!(stepped, Some(Effect::SaveMetadata { term: 9, voted_for: None })));
    assert_eq!(n.state, NodeState::Follower);
    assert_eq!(n.current_term, 9);
    assert!(n.finish_election(&tally).is_none());
}

#[test]
fn leader_replicates_and_commits_on_majority() {
    let mut n = node(&["a", "b"]);
    let (_, _, mut tally) = n.start_election();
    n.record_vote(&mut tally, &VoteResponse { term: 1, vote_granted: true });
    n.finish_election(&tally);

    let e = n.propose(b"SET k v".to_vec()).unwrap();
    assert_eq!(e.index, 1);
    assert_eq!(e.term, 1);
    n.append_proposed(e, true).unwrap();
    assert_eq!(n.log.len(), 1);

    let snapshot: Vec<LogEntry> = n.log.iter().map(|e| e.duplicate()).collect();
    let req = n.replication_request(0, 1, &snapshot);
    assert_eq!(req.entries.len(), 1);
    assert_eq!(req.prev_log_index, 0);
    let effects = n.on_append_response(0, 1, &req.entries, &AppendEntriesResponse { term: 1, success: true });
    assert_eq!(n.commit_index, 1);
    match &effects[0] {
        Effect::Apply(cmd) => assert_eq!(cmd, &b"SET k v".to_vec()),
        _ => panic!("expected Apply"),
    }
    let req = n.replication_request(0, 1, &snapshot);
    assert!(req.entries.is_empty());
    assert_eq!(req.prev_log_index, 1);
    assert_eq!(req.leader_commit, 1);
}

#[test]
fn follower_refuses_proposals() {
    let n = node(&[]);
    assert_eq!(n.propose(b"x".to_vec()).err(), Some(ProposeError::NotLeader));
}

#[test]
fn unpersisted_proposal_is_dropped() {
    let mut n = node(&[]);
    let (_, _, tally) = n.start_election();
    n.finish_election(&tally);
    let e = n.propose(b"x".to_vec()).unwrap();
    assert_eq!(n.append_proposed(e, false), Err(ProposeError::PersistenceFailure));
    assert!(n.log.is_empty());
}

#[test]
fn kth_smallest_is_the_sorted_position() {
    assert_eq!(kth_smallest(&vec![5, 1, 3], 1), 3);
    assert_eq!(kth_smallest(&vec![2, 2, 0, 7], 2), 2);
    assert_eq!(kth_smallest(&vec![9], 0), 9);
}

#[test]
fn storage_paths() {
    let s = RaftStorage::new(3);
    assert_eq!(s.metadata_path(), "node_3_metadata.json");
    assert_eq!(s.log_path(), "node_3_raft.log");
    let s = RaftStorage::new(1234567890123);
    assert_eq!(s.metadata_path(), "node_1234567890123_metadata.json");
}

fn leader_with_log(peers: &[&str], cmds: &[&str]) -> RaftNode {
    let mut n = node(peers);
    let (_, _, mut tally) = n.start_election();
    for _ in 0..peers.len() {
        n.record_vote(&mut tally, &VoteResponse { term: 1, vote_granted: true });
    }
    n.finish_election(&tally);
    assert_eq!(n.state, NodeState::Leader);
    for c in cmds {
        let e = n.propose(c.as_bytes().to_vec()).unwrap();
        n.append_proposed(e, true).unwrap();
    }
    n
}

#[test]
fn commit_of_several_entries_applies_each_in_order() {
    let mut n = leader_with_log(&["p1", "p2"], &["a", "b"]);
    let snapshot: Vec<LogEntry> = n.log.iter().map(|e| e.duplicate()).collect();
    let req = n.replication_request(0, 1, &snapshot);
    assert_eq!(req.entries.len(), 2);
    let effects = n.on_append_response(0, 1, &req.entries, &AppendEntriesResponse { term: 1, success: true });
    assert_eq!(n.commit_index, 2);
    assert_eq!(effects.len(), 2);
    match (&effects[0], &effects[1]) {
        (Effect::Apply(x), Effect::Apply(y)) => {
            assert_eq!(x, &b"a".to_vec());
            assert_eq!(y, &b"b".to_vec());
        }
        _ => panic!("expected two Apply effects"),
    }
    assert_eq!(n.state, NodeState::Leader);
    assert_eq!(n.current_term, 1);
    // The other follower's progress is untouched.
    let req = n.replication_request(1, 1, &snapshot);
    assert_eq!(req.prev_log_index, 0);
    assert_eq!(req.entries.len(), 2);
}

#[test]
fn two_node_cluster_commits_only_what_both_hold() {
    let mut n = leader_with_log(&["p1"], &["a", "b"]);
    // The follower took only the first entry.
    let first: Vec<LogEntry> = vec![n.log[0].duplicate()];
    let effects = n.on_append_response(0, 1, &first, &AppendEntriesResponse { term: 1, success: true });
    assert_eq!(n.commit_index, 1);
    assert_eq!(effects.len(), 1);
    // Once it holds both, both are committed.
    let both: Vec<LogEntry> = n.log.iter().map(|e| e.duplicate()).collect();
    let effects = n.on_append_response(0, 1, &both, &AppendEntriesResponse { term: 1, success: true });
    assert_eq!(n.commit_index, 2);
    match &effects[..] {
        [Effect::Apply(y)] => assert_eq!(y, &b"b".to_vec()),
        _ => panic!("expected one Apply"),
    }
}

#[test]
fn election_due_only_for_a_silent_non_leader() {
    let mut n = node(&["p1"]);
    assert!(n.election_due(1_500_000_000, 1_000_000_000));
    assert!(!n.election_due(500_000_000, 1_000_000_000));
    let (_, _, mut tally) = n.start_election();
    n.record_vote(&mut tally, &VoteResponse { term: 1, vote_granted: true });
    n.finish_election(&tally);
    assert!(!n.election_due(1_500_000_000, 1_000_000_000));
}

fn heartbeat(term: u64, prev: u64, prev_term: u64, commit: u64, entries: Vec<LogEntry>) -> AppendEntriesRequest {
    AppendEntriesRequest {
        term,
        leader_id: 7,
        prev_log_index: prev,
        prev_log_term: prev_term,
        leader_commit: commit,
        entries,
    }
}

#[test]
fn heartbeat_past_the_end_of_the_log_is_refused() {
    let mut n = node(&[]);
    n.request_vote(&vote(1, 7));
    let (resp, effects) = n.append_entries(heartbeat(1, 4, 1, 0, vec![entry(1, 5, "x")]));
    assert!(!resp.success);
    assert_eq!(resp.term, 1);
    assert!(n.log.is_empty());
    assert_eq!(effects.len(), 1);
    assert!(matches!(effects[0], Effect::ResetElectionTimer));
}

#[test]
fn heartbeat_with_a_different_previous_term_is_refused() {
    let mut n = node(&[]);
    n.append_entries(heartbeat(1, 0, 0, 0, vec![entry(1, 1, "a")]));
    let (resp, _) = n.append_entries(heartbeat(2, 1, 2, 0, vec![entry(2, 2, "b")]));
    assert!(!resp.success);
    assert_eq!(n.log.len(), 1);
    // Entries that are not numbered from the previous index on are refused.
    let (resp, _) = n.append_entries(heartbeat(2, 1, 1, 0, vec![entry(2, 3, "b")]));
    assert!(!resp.success);
    assert_eq!(n.log.len(), 1);
}

#[test]
fn conflicting_entries_are_replaced() {
    let mut n = node(&[]);
    n.append_entries(heartbeat(1, 0, 0, 0, vec![entry(1, 1, "a"), entry(1, 2, "b"), entry(1, 3, "c")]));
    assert_eq!(n.log.len(), 3);
    let (resp, effects) = n.append_entries(heartbeat(2, 1, 1, 0, vec![entry(2, 2, "B")]));
    assert!(resp.success);
    assert_eq!(n.log.len(), 2);
    assert_eq!(n.log[1].command, b"B".to_vec());
    assert_eq!(n.log[1].term, 2);
    assert!(matches!(effects[effects.len() - 2], Effect::TruncateLog(1)));
    assert!(matches!(effects[effects.len() - 1], Effect::PersistEntry(_)));
    // An entry already held with the same term stays.
    let (resp, effects) = n.append_entries(heartbeat(2, 0, 0, 0, vec![entry(1, 1, "a")]));
    assert!(resp.success);
    assert_eq!(n.log.len(), 2);
    assert_eq!(effects.len(), 1);
}

#[test]
fn leader_backs_off_after_a_refusal_and_sends_the_previous_term() {
    let mut n = leader_with_log(&["p1"], &["a", "b"]);
    let snapshot: Vec<LogEntry> = n.log.iter().map(|e| e.duplicate()).collect();
    let req = n.replication_request(0, 1, &snapshot);
    assert_eq!(req.prev_log_index, 0);
    assert_eq!(req.entries.len(), 2);
    n.on_append_response(0, 1, &req.entries, &AppendEntriesResponse { term: 1, success: true });
    // The follower is now sent the log from its end on.
    let req = n.replication_request(0, 1, &snapshot);
    assert_eq!(req.prev_log_index, 2);
    assert_eq!(req.prev_log_term, 1);
    assert!(req.entries.is_empty());
    let effects = n.on_append_response(0, 1, &req.entries, &AppendEntriesResponse { term: 1, success: false });
    assert!(effects.is_empty());
    let req = n.replication_request(0, 1, &snapshot);
    assert_eq!(req.prev_log_index, 1);
    assert_eq!(req.prev_log_term, 1);
    assert_eq!(req.entries.len(), 1);
    n.on_append_response(0, 1, &req.entries, &AppendEntriesResponse { term: 1, success: false });
    let req = n.replication_request(0, 1, &snapshot);
    assert_eq!(req.prev_log_index, 0);
    assert_eq!(req.prev_log_term, 0);
    assert_eq!(req.entries.len(), 2);
    // It never goes below the start of the log.
    n.on_append_response(0, 1, &req.entries, &AppendEntriesResponse { term: 1, success: false });
    assert_eq!(n.replication_request(0, 1, &snapshot).prev_log_index, 0);

    // A follower with an empty log takes the full heartbeat.
    let mut f = node(&[]);
    let (resp, _) = f.append_entries(req);
    assert!(resp.success);
    assert_eq!(f.log.len(), 2);
}
