use showcase::raft::{apply_command, apply_parts, lcg_next, Action, Cluster, LogEntry, RaftEvent, Role, Rpc, StateMachine};

fn sends(actions: &[Action]) -> Vec<(usize, usize, &Rpc)> {
    actions
        .iter()
        .filter_map(|a| match a {
            Action::Send { from, to, rpc } => Some((*from, *to, rpc)),
            _ => None,
        })
        .collect()
}

/// Delivers every send of `actions`, and what that produces, until no
/// message is left.
fn settle(cluster: &mut Cluster, actions: Vec<Action>) {
    let mut queue: Vec<(usize, usize, Rpc)> = Vec::new();
    for a in actions {
        if let Action::Send { from, to, rpc } = a {
            queue.push((from, to, rpc));
        }
    }
    let mut rounds = 0;
    while !queue.is_empty() {
        let (from, to, rpc) = queue.remove(0);
        rounds += 1;
        assert!(rounds < 10_000);
        for a in cluster.deliver(from, to, rpc) {
            if let Action::Send { from, to, rpc } = a {
                queue.push((from, to, rpc));
            }
        }
    }
}

#[test]
fn role_and_message_labels() {
    assert_eq!(Role::Follower.label(), "Follower");
    assert_eq!(Role::Candidate.label(), "Candidate");
    assert_eq!(Role::Leader.label(), "Leader");
    let beat = Rpc::AppendEntries { term: 1, leader_id: 0, prev_log_index: 0, prev_log_term: 0, entries: vec![], leader_commit: 0 };
    assert_eq!(beat.short_label(), "Beat");
    let append = Rpc::AppendEntries {
        term: 1,
        leader_id: 0,
        prev_log_index: 0,
        prev_log_term: 0,
        entries: vec![LogEntry { term: 1, command: "counter += 1".to_string() }],
        leader_commit: 0,
    };
    assert_eq!(append.short_label(), "Append");
    assert_eq!(Rpc::RequestVote { term: 1, candidate_id: 0, last_log_index: 0, last_log_term: 0 }.short_label(), "Vote?");
    assert_eq!(Rpc::RequestVoteResponse { term: 1, vote_granted: true, from: 1 }.short_label(), "Yes");
    assert_eq!(Rpc::RequestVoteResponse { term: 1, vote_granted: false, from: 1 }.short_label(), "No");
    assert_eq!(Rpc::AppendEntriesResponse { term: 1, success: true, from: 1, match_index: 0 }.short_label(), "Ack");
    assert_eq!(Rpc::AppendEntriesResponse { term: 1, success: false, from: 1, match_index: 0 }.short_label(), "Reject");
}

#[test]
fn state_machine_applies_counter_commands() {
    let mut sm = StateMachine::new();
    apply_command(&mut sm, "counter += 5");
    apply_command(&mut sm, "counter += -2");
    apply_command(&mut sm, "other += 1");
    assert_eq!(sm.get("counter"), Some(3));
    assert_eq!(sm.get("other"), Some(1));
    apply_command(&mut sm, "counter -= 4");
    apply_command(&mut sm, "counter += x");
    apply_command(&mut sm, "counter +=");
    assert_eq!(sm.get("counter"), Some(3));
    assert_eq!(sm.get("missing"), None);
    apply_command(&mut sm, "big += 9223372036854775807");
    apply_command(&mut sm, "big += 1");
    assert_eq!(sm.get("big"), Some(i64::MIN));
}

#[test]
fn new_cluster_has_followers_and_majority() {
    let c = Cluster::new(5);
    assert_eq!(c.nodes.len(), 5);
    assert_eq!(c.majority(), 3);
    assert!(c.nodes.iter().all(|n| n.role == Role::Follower && n.current_term == 0 && n.alive));
    assert_eq!(c.leader_id(), None);
    assert_eq!(Cluster::new(4).majority(), 3);
}

#[test]
fn starting_an_election_requests_votes() {
    let mut c = Cluster::new(3);
    let actions = c.start_election(1);
    assert_eq!(c.nodes[1].role, Role::Candidate);
    assert_eq!(c.nodes[1].current_term, 1);
    assert_eq!(c.nodes[1].voted_for, Some(1));
    assert!(matches!(actions[0], Action::ResetElectionTimer { node: 1 }));
    assert!(matches!(actions[1], Action::Note { event: RaftEvent::StartsElection { node: 1, term: 1 } }));
    let s = sends(&actions);
    assert_eq!(s.len(), 2);
    assert_eq!((s[0].0, s[0].1), (1, 0));
    assert_eq!((s[1].0, s[1].1), (1, 2));
    assert!(matches!(s[0].2, Rpc::RequestVote { term: 1, candidate_id: 1, last_log_index: 0, last_log_term: 0 }));
}

#[test]
fn single_node_leads_at_once() {
    let mut c = Cluster::new(1);
    let actions = c.start_election(0);
    assert_eq!(c.nodes[0].role, Role::Leader);
    assert_eq!(c.leader_id(), Some(0));
    assert!(matches!(actions[2], Action::ClearTimers { node: 0 }));
}

#[test]
fn a_node_votes_once_per_term() {
    let mut c = Cluster::new(3);
    let a = c.deliver(1, 0, Rpc::RequestVote { term: 1, candidate_id: 1, last_log_index: 0, last_log_term: 0 });
    assert_eq!(c.nodes[0].voted_for, Some(1));
    assert!(matches!(sends(&a)[0].2, Rpc::RequestVoteResponse { term: 1, vote_granted: true, from: 0 }));
    let b = c.deliver(2, 0, Rpc::RequestVote { term: 1, candidate_id: 2, last_log_index: 0, last_log_term: 0 });
    assert_eq!(c.nodes[0].voted_for, Some(1));
    assert!(matches!(sends(&b)[0].2, Rpc::RequestVoteResponse { term: 1, vote_granted: false, from: 0 }));
}

#[test]
fn stale_logs_get_no_vote() {
    let mut c = Cluster::new(3);
    c.nodes[0].log.push(LogEntry { term: 2, command: "counter += 1".to_string() });
    c.nodes[0].current_term = 2;
    let a = c.deliver(1, 0, Rpc::RequestVote { term: 3, candidate_id: 1, last_log_index: 5, last_log_term: 1 });
    assert_eq!(c.nodes[0].current_term, 3);
    assert_eq!(c.nodes[0].voted_for, None);
    assert!(matches!(sends(&a)[0].2, Rpc::RequestVoteResponse { term: 3, vote_granted: false, from: 0 }));
}

#[test]
fn election_replication_commit_and_apply() {
    let mut c = Cluster::new(3);
    let actions = c.start_election(0);
    settle(&mut c, actions);
    assert_eq!(c.nodes[0].role, Role::Leader);
    assert_eq!(c.leader_id(), Some(0));
    let actions = c.propose_client_command();
    assert_eq!(c.client_seq, 1);
    assert_eq!(c.nodes[0].log.len(), 1);
    assert_eq!(c.nodes[0].log[0].command, "counter += 1");
    assert!(matches!(&actions[0], Action::Note { event: RaftEvent::ClientCommand { node: 0, .. } }));
    settle(&mut c, actions);
    assert_eq!(c.nodes[0].commit_index, 1);
    for id in 0..3 {
        assert_eq!(c.nodes[id].log.len(), 1);
        c.apply_committed_entries(id);
    }
    assert_eq!(c.nodes[0].last_applied, 1);
    assert_eq!(c.nodes[0].state_machine.get("counter"), Some(1));
    assert_eq!(c.nodes[1].commit_index, 1);
    assert_eq!(c.nodes[1].state_machine.get("counter"), Some(1));
}

#[test]
fn client_request_without_leader_is_refused() {
    let mut c = Cluster::new(3);
    let actions = c.propose_client_command();
    assert_eq!(actions.len(), 1);
    assert!(matches!(actions[0], Action::Note { event: RaftEvent::ClientRejected }));
    assert_eq!(c.client_seq, 0);
}

#[test]
fn stale_append_request_is_refused() {
    let mut c = Cluster::new(3);
    c.nodes[1].current_term = 4;
    let a = c.deliver(0, 1, Rpc::AppendEntries { term: 3, leader_id: 0, prev_log_index: 0, prev_log_term: 0, entries: vec![], leader_commit: 0 });
    assert_eq!(a.len(), 1);
    assert!(matches!(sends(&a)[0].2, Rpc::AppendEntriesResponse { term: 4, success: false, from: 1, match_index: 0 }));
}

#[test]
fn conflicting_entries_are_replaced() {
    let mut c = Cluster::new(2);
    c.nodes[1].log.push(LogEntry { term: 1, command: "counter += 1".to_string() });
    c.nodes[1].log.push(LogEntry { term: 1, command: "counter += 2".to_string() });
    c.nodes[1].current_term = 1;
    let entries = vec![LogEntry { term: 2, command: "counter += 9".to_string() }];
    let a = c.deliver(0, 1, Rpc::AppendEntries { term: 2, leader_id: 0, prev_log_index: 1, prev_log_term: 1, entries, leader_commit: 5 });
    assert_eq!(c.nodes[1].log.len(), 2);
    assert_eq!(c.nodes[1].log[1].term, 2);
    assert_eq!(c.nodes[1].log[1].command, "counter += 9");
    assert_eq!(c.nodes[1].commit_index, 2);
    assert!(matches!(a[0], Action::ResetFollowerTimers { node: 1 }));
    assert!(matches!(sends(&a)[0].2, Rpc::AppendEntriesResponse { term: 2, success: true, from: 1, match_index: 2 }));
}

#[test]
fn missing_previous_entry_is_reported() {
    let mut c = Cluster::new(2);
    let a = c.deliver(0, 1, Rpc::AppendEntries { term: 1, leader_id: 0, prev_log_index: 3, prev_log_term: 1, entries: vec![], leader_commit: 0 });
    assert!(matches!(sends(&a)[0].2, Rpc::AppendEntriesResponse { term: 1, success: false, from: 1, match_index: 0 }));
}

#[test]
fn crashed_node_ignores_messages_and_restarts_as_follower() {
    let mut c = Cluster::new(3);
    c.start_election(2);
    let a = c.toggle_node(2);
    assert!(!c.nodes[2].alive);
    assert_eq!(c.nodes[2].role, Role::Follower);
    assert!(matches!(a[1], Action::Note { event: RaftEvent::Crashed { node: 2 } }));
    let none = c.deliver(0, 2, Rpc::RequestVote { term: 9, candidate_id: 0, last_log_index: 0, last_log_term: 0 });
    assert!(none.is_empty());
    assert_eq!(c.nodes[2].current_term, 1);
    let b = c.toggle_node(2);
    assert!(c.nodes[2].alive);
    assert_eq!(c.nodes[2].voted_for, None);
    assert_eq!(c.nodes[2].current_term, 1);
    assert!(matches!(b[0], Action::ResetFollowerTimers { node: 2 }));
    assert!(c.toggle_node(7).is_empty());
}

#[test]
fn timeouts_start_elections_and_heartbeats() {
    let mut c = Cluster::new(3);
    let a = c.on_election_timeout(0);
    assert_eq!(c.nodes[0].role, Role::Candidate);
    settle(&mut c, a);
    assert_eq!(c.nodes[0].role, Role::Leader);
    assert!(c.on_election_timeout(0).is_empty());
    let beats = c.on_heartbeat_timeout(0);
    assert_eq!(beats.len(), 2);
    assert!(c.on_heartbeat_timeout(1).is_empty());
}

#[test]
fn newer_term_answer_makes_leader_step_down() {
    let mut c = Cluster::new(3);
    let a = c.start_election(0);
    settle(&mut c, a);
    let b = c.deliver(1, 0, Rpc::AppendEntriesResponse { term: 7, success: false, from: 1, match_index: 0 });
    assert_eq!(c.nodes[0].role, Role::Follower);
    assert_eq!(c.nodes[0].current_term, 7);
    assert!(matches!(b[0], Action::ResetFollowerTimers { node: 0 }));
}

#[test]
fn lcg_steps_wrap_modulo_two_to_the_64() {
    assert_eq!(lcg_next(0), 1442695040888963407);
    assert_eq!(lcg_next(1), 7806831264735756412);
    assert_eq!(lcg_next(u64::MAX), 13525302890751722018);
    assert_eq!(lcg_next(0x5EED_1234_ABCD_0001), 9997320995360604284);
}

fn leaders_of_term(c: &Cluster, term: u64) -> usize {
    c.nodes.iter().filter(|n| n.role == Role::Leader && n.current_term == term).count()
}

fn owned_sends(actions: Vec<Action>) -> Vec<(usize, usize, Rpc)> {
    let mut out = Vec::new();
    for a in actions {
        if let Action::Send { from, to, rpc } = a {
            out.push((from, to, rpc));
        }
    }
    out
}

#[test]
fn split_candidacy_elects_at_most_one_leader() {
    let mut c = Cluster::new(3);
    let mut requests = owned_sends(c.on_election_timeout(0));
    requests.extend(owned_sends(c.on_election_timeout(1)));
    assert_eq!(c.nodes[0].current_term, 1);
    assert_eq!(c.nodes[1].current_term, 1);
    // Node 2 hears node 0 first, then node 1; the candidates hear each other.
    let mut answers = Vec::new();
    for (from, to, rpc) in requests {
        answers.extend(owned_sends(c.deliver(from, to, rpc)));
    }
    for (from, to, rpc) in answers {
        c.deliver(from, to, rpc);
    }
    assert_eq!(c.nodes[0].role, Role::Leader);
    assert_eq!(c.nodes[1].role, Role::Candidate);
    assert_eq!(leaders_of_term(&c, 1), 1);
}

#[test]
fn a_restart_forgets_the_vote_of_the_term() {
    let mut c = Cluster::new(3);
    let requests0 = owned_sends(c.on_election_timeout(0));
    let requests1 = owned_sends(c.on_election_timeout(1));
    // Node 2 votes for node 0 in term 1 ...
    let (f, t, r) = requests0.into_iter().find(|m| m.1 == 2).unwrap();
    let answer0 = owned_sends(c.deliver(f, t, r));
    assert_eq!(c.nodes[2].voted_for, Some(0));
    // ... crashes and comes back with no vote in the same term ...
    c.toggle_node(2);
    c.toggle_node(2);
    assert_eq!(c.nodes[2].current_term, 1);
    assert_eq!(c.nodes[2].voted_for, None);
    // ... and then votes for node 1 in term 1 as well.
    let (f, t, r) = requests1.into_iter().find(|m| m.1 == 2).unwrap();
    let answer1 = owned_sends(c.deliver(f, t, r));
    assert_eq!(c.nodes[2].voted_for, Some(1));
    for (from, to, rpc) in answer0.into_iter().chain(answer1) {
        c.deliver(from, to, rpc);
    }
    assert_eq!(leaders_of_term(&c, 1), 2);
}

/// Every two logs that hold entries of the same term at the same position
/// agree on everything up to it.
fn logs_match(c: &Cluster) -> bool {
    for a in &c.nodes {
        for b in &c.nodes {
            for k in 0..a.log.len().min(b.log.len()) {
                if a.log[k].term == b.log[k].term {
                    for j in 0..=k {
                        if a.log[j].term != b.log[j].term || a.log[j].command != b.log[j].command {
                            return false;
                        }
                    }
                }
            }
        }
    }
    true
}

#[test]
fn logs_keep_matching_across_leaders() {
    let mut c = Cluster::new(3);
    let actions = c.start_election(0);
    settle(&mut c, actions);
    for _ in 0..2 {
        let actions = c.propose_client_command();
        settle(&mut c, actions);
    }
    c.toggle_node(2);
    let actions = c.propose_client_command();
    settle(&mut c, actions);
    assert_eq!(c.nodes[0].log.len(), 3);
    assert_eq!(c.nodes[2].log.len(), 2);
    let actions = c.on_election_timeout(1);
    settle(&mut c, actions);
    assert_eq!(c.nodes[1].role, Role::Leader);
    assert_eq!(c.nodes[1].current_term, 2);
    let actions = c.propose_client_command();
    settle(&mut c, actions);
    assert_eq!(c.nodes[1].log.len(), 4);
    assert_eq!(c.nodes[1].log[3].term, 2);
    assert!(logs_match(&c));
    assert_eq!(c.nodes[0].log.len(), 4);
}

#[test]
fn fresh_follower_commits_the_first_entry() {
    let mut c = Cluster::new(2);
    assert_eq!(c.nodes[0].commit_index, 0);
    assert_eq!(c.nodes[0].next_index, vec![1, 1]);
    assert_eq!(c.nodes[0].match_index, vec![0, 0]);
    let entries = vec![LogEntry { term: 1, command: "counter += 1".to_string() }];
    let a = c.deliver(1, 0, Rpc::AppendEntries { term: 1, leader_id: 1, prev_log_index: 0, prev_log_term: 0, entries, leader_commit: 1 });
    let n = &c.nodes[0];
    assert_eq!(n.current_term, 1);
    assert_eq!(n.role, Role::Follower);
    assert_eq!(n.log.len(), 1);
    assert_eq!(n.commit_index, 1);
    assert!(matches!(sends(&a)[0], (0, 1, Rpc::AppendEntriesResponse { term: 1, success: true, from: 0, match_index: 1 })));
}

#[test]
fn a_repeated_append_request_changes_nothing() {
    let mut c = Cluster::new(2);
    let req = || Rpc::AppendEntries {
        term: 1,
        leader_id: 1,
        prev_log_index: 0,
        prev_log_term: 0,
        entries: vec![LogEntry { term: 1, command: "counter += 1".to_string() }],
        leader_commit: 1,
    };
    c.deliver(1, 0, req());
    let (log, commit) = (c.nodes[0].log.len(), c.nodes[0].commit_index);
    let a = c.deliver(1, 0, req());
    assert_eq!((c.nodes[0].log.len(), c.nodes[0].commit_index), (log, commit));
    assert!(matches!(sends(&a)[0].2, Rpc::AppendEntriesResponse { success: true, .. }));
}

#[test]
fn messages_to_a_down_node_are_dropped() {
    let mut c = Cluster::new(2);
    c.toggle_node(0);
    let before = c.nodes[0].commit_index;
    let a = c.deliver(1, 0, Rpc::AppendEntriesResponse { term: 0, success: true, from: 7, match_index: usize::MAX });
    assert!(a.is_empty());
    assert_eq!(c.nodes[0].commit_index, before);
    assert!(!c.nodes[0].alive);
}

#[test]
fn parts_of_a_command_apply_alone() {
    let mut s = StateMachine::new();
    apply_parts(&mut s, &vec!["x".to_string(), "+=".to_string(), "5".to_string()], Some(5));
    apply_parts(&mut s, &vec!["x".to_string(), "-=".to_string(), "5".to_string()], Some(5));
    apply_parts(&mut s, &vec!["x".to_string(), "+=".to_string(), "q".to_string()], None);
    assert_eq!(s.get("x"), Some(5));
}

#[test]
fn commands_split_at_any_white_space_and_take_a_sign() {
    let mut sm = StateMachine::new();
    apply_command(&mut sm, "  n\t+=\u{3000}+7 ");
    assert_eq!(sm.get("n"), Some(7));
    apply_command(&mut sm, "n += -");
    apply_command(&mut sm, "n += 9223372036854775808");
    apply_command(&mut sm, "n += 1 2");
    assert_eq!(sm.get("n"), Some(7));
    apply_command(&mut sm, "n\n+=\n-10");
    assert_eq!(sm.get("n"), Some(-3));
}

#[test]
fn a_shuffled_run_never_has_two_leaders_of_a_term() {
    let mut c = Cluster::new(5);
    let mut pending: Vec<(usize, usize, Rpc)> = Vec::new();
    let mut rng: u64 = 7;
    for _ in 0..2000 {
        rng = lcg_next(rng);
        let pick = (rng >> 33) as usize;
        if pick % 7 == 0 || pending.is_empty() {
            let id = pick % 5;
            if c.nodes[id].role == Role::Leader {
                pending.extend(owned_sends(c.on_heartbeat_timeout(id)));
            } else {
                pending.extend(owned_sends(c.on_election_timeout(id)));
            }
        } else {
            let (from, to, rpc) = pending.swap_remove(pick % pending.len());
            pending.extend(owned_sends(c.deliver(from, to, rpc)));
        }
        for term in 0..=c.nodes.iter().map(|n| n.current_term).max().unwrap() {
            assert!(leaders_of_term(&c, term) <= 1);
        }
    }
}

#[test]
fn a_far_previous_index_is_refused_without_overflow() {
    let mut c = Cluster::new(2);
    let entries = vec![LogEntry { term: 1, command: "x += 1".to_string() }];
    let a = c.deliver(0, 1, Rpc::AppendEntries { term: 1, leader_id: 0, prev_log_index: usize::MAX, prev_log_term: 1, entries, leader_commit: 0 });
    assert!(matches!(sends(&a)[0].2, Rpc::AppendEntriesResponse { term: 1, success: false, from: 1, match_index: 0 }));
    assert_eq!(c.nodes[1].log.len(), 0);
}
