//! Log matching in the simulated Raft cluster: two logs that hold an entry
//! of the same term at the same position agree on every entry up to it.
//! The argument keeps, beside the records of the election argument, the
//! log of each term's leader as it stood while it led: every entry of a
//! log, and every entry sent out, is a prefix of the log of its term.

use crate::election::{
    elected_in, election_safe, lemma_apply_election_safe, lemma_client_command_election_safe,
    lemma_client_command_facts, lemma_deliver_election_safe, lemma_election_timeout_election_safe,
    lemma_leaders_recorded, lemma_one_node_changed, lemma_records_unchanged,
    lemma_toggle_election_safe, next_cast, next_elected, Elections, Vote,
};
use crate::raft::{
    client_command_handled, delivered, election_timed_out, entries_applied, grants_vote,
    heartbeat_sent, is_append_entries, leader_actions, merge_entries, peer_of,
    prev_matches, sends_entries_to_all, steps_down, toggled, Action, Cluster, LogEntry, Node, Role,
    Rpc,
};
use vstd::prelude::*;

verus! {

/// The log of each term's leader, as it stood while it led.
pub type TermLogs = Map<u64, Seq<LogEntry>>;

/// Every entry of `log` closes a prefix of `log` that is the prefix of the
/// same length of the log of the entry's term.
pub open spec fn traced(log: Seq<LogEntry>, logs: TermLogs) -> bool {
    forall|k: int|
        0 <= k < log.len() ==> {
            &&& logs.contains_key(#[trigger] log[k].term)
            &&& k < logs[log[k].term].len()
            &&& log.take(k + 1) == logs[log[k].term].take(k + 1)
        }
}

/// A prefix of a traced log is traced.
proof fn lemma_traced_prefix(log: Seq<LogEntry>, j: int, logs: TermLogs)
    requires
        traced(log, logs),
        0 <= j <= log.len(),
    ensures
        traced(log.take(j), logs),
{
    assert forall|k: int| 0 <= k < log.take(j).len() implies {
        &&& logs.contains_key(#[trigger] log.take(j)[k].term)
        &&& k < logs[log.take(j)[k].term].len()
        &&& log.take(j).take(k + 1) == logs[log.take(j)[k].term].take(k + 1)
    } by {
        assert(log.take(j)[k] == log[k]);
        assert(log.take(j).take(k + 1) == log.take(k + 1));
    }
}

/// Two traced logs with entries of the same term at position `k` agree up
/// to it.
proof fn lemma_traced_match(l1: Seq<LogEntry>, l2: Seq<LogEntry>, k: int, logs: TermLogs)
    requires
        traced(l1, logs),
        traced(l2, logs),
        0 <= k < l1.len(),
        0 <= k < l2.len(),
        l1[k].term == l2[k].term,
    ensures
        l1.take(k + 1) == l2.take(k + 1),
{
}

/// Merging into a traced log entries that are a stretch of a traced log
/// `g`, at a position up to which the two logs agree, gives a traced log.
proof fn lemma_merge_traced(log: Seq<LogEntry>, at: int, entries: Seq<LogEntry>, g: Seq<LogEntry>, logs: TermLogs)
    requires
        traced(log, logs),
        traced(g, logs),
        0 <= at <= log.len(),
        at + entries.len() <= g.len(),
        entries == g.subrange(at, at + entries.len()),
        log.take(at) == g.take(at),
    ensures
        traced(merge_entries(log, at, entries), logs),
    decreases entries.len(),
{
    if entries.len() > 0 {
        let e = entries[0];
        assert(e == g[at]);
        let next = if at < log.len() {
            if log[at].term != e.term {
                log.take(at).push(e)
            } else {
                log
            }
        } else {
            log.push(e)
        };
        assert(g.take(at + 1) == g.take(at).push(g[at]));
        if at < log.len() && log[at].term == e.term {
            lemma_traced_match(log, g, at, logs);
            assert(next.take(at + 1) == g.take(at + 1));
        } else if at < log.len() {
            assert(next == g.take(at + 1));
            lemma_traced_prefix(g, at + 1, logs);
        } else {
            assert(log == log.take(at));
            assert(next == g.take(at + 1));
            lemma_traced_prefix(g, at + 1, logs);
        }
        assert(next.take(at + 1) == g.take(at + 1));
        assert(entries.drop_first() == g.subrange(at + 1, at + 1 + entries.drop_first().len()));
        lemma_merge_traced(next, at + 1, entries.drop_first(), g, logs);
        assert(merge_entries(log, at, entries) == merge_entries(next, at + 1, entries.drop_first()));
    }
}

/// An append request in `m` carries a stretch of the log of its term,
/// with the term of the entry before it.
pub open spec fn entries_traced(m: Action, logs: TermLogs) -> bool {
    match m {
        Action::Send { rpc, .. } => match rpc {
            Rpc::AppendEntries { term, prev_log_index, prev_log_term, entries, .. } => {
                &&& logs.contains_key(term)
                &&& prev_log_index + entries@.len() <= logs[term].len()
                &&& entries@ == logs[term].subrange(prev_log_index as int, prev_log_index + entries@.len())
                &&& prev_log_index > 0 ==> logs[term][prev_log_index - 1].term == prev_log_term
            },
            _ => true,
        },
        _ => true,
    }
}

/// The invariant behind log matching, over the nodes, the messages sent so
/// far, the record of elections and the logs of the terms' leaders: a log
/// is kept only for a term with a recorded election; every such log, every
/// node's log and every entry sent out is traced to them; and a leader's
/// log is the one kept for its term.
pub open spec fn logs_traced(nodes: Seq<Node>, sent: Set<Action>, elected: Elections, logs: TermLogs) -> bool {
    &&& forall|t: u64| #[trigger] logs.contains_key(t) ==> elected.contains_key(t) && traced(logs[t], logs)
    &&& forall|i: int| 0 <= i < nodes.len() ==> traced(#[trigger] nodes[i].log@, logs)
    &&& forall|i: usize|
        i < nodes.len() && #[trigger] nodes[i as int].role == Role::Leader ==> logs.contains_key(
            nodes[i as int].current_term,
        ) && logs[nodes[i as int].current_term] == nodes[i as int].log@
    &&& forall|m: Action| #[trigger] sent.contains(m) ==> entries_traced(m, logs)
}

/// The logs of the leaders now, by term.
pub open spec fn leader_logs(nodes: Seq<Node>) -> TermLogs {
    Map::new(
        |t: u64|
            exists|i: usize|
                i < nodes.len() && #[trigger] nodes[i as int].role == Role::Leader && nodes[i as int].current_term
                    == t,
        |t: u64|
            {
                let i = choose|i: usize|
                    i < nodes.len() && #[trigger] nodes[i as int].role == Role::Leader && nodes[i as int].current_term
                        == t;
                nodes[i as int].log@
            },
    )
}

/// The logs of the terms' leaders after a step that changed the nodes to
/// `nodes`: each leader's log now is the one of its term.
pub open spec fn next_logs(logs: TermLogs, nodes: Seq<Node>) -> TermLogs {
    logs.union_prefer_right(leader_logs(nodes))
}

/// Law (log matching): where the invariant holds, two nodes whose logs
/// hold entries of the same term at the same position agree on every
/// entry up to it.
pub proof fn lemma_logs_match(
    c: Cluster,
    sent: Set<Action>,
    elected: Elections,
    logs: TermLogs,
    i: int,
    j: int,
    k: int,
)
    requires
        logs_traced(c.nodes@, sent, elected, logs),
        0 <= i < c.nodes@.len(),
        0 <= j < c.nodes@.len(),
        0 <= k < c.nodes@[i].log@.len(),
        0 <= k < c.nodes@[j].log@.len(),
        c.nodes@[i].log@[k].term == c.nodes@[j].log@[k].term,
    ensures
        c.nodes@[i].log@.take(k + 1) == c.nodes@[j].log@.take(k + 1),
{
    assert(traced(c.nodes@[i].log@, logs));
    assert(traced(c.nodes@[j].log@, logs));
    lemma_traced_match(c.nodes@[i].log@, c.nodes@[j].log@, k, logs);
}

/// `logs2` keeps every log of `logs`, possibly longer.
spec fn logs_extend(logs: TermLogs, logs2: TermLogs) -> bool {
    forall|t: u64|
        #[trigger] logs.contains_key(t) ==> logs2.contains_key(t) && logs[t].len() <= logs2[t].len()
            && logs2[t].take(logs[t].len() as int) == logs[t]
}

/// What is traced stays traced when the logs of the terms grow.
proof fn lemma_traced_extend(log: Seq<LogEntry>, logs: TermLogs, logs2: TermLogs)
    requires
        traced(log, logs),
        logs_extend(logs, logs2),
    ensures
        traced(log, logs2),
{
    assert forall|k: int| 0 <= k < log.len() implies {
        &&& logs2.contains_key(#[trigger] log[k].term)
        &&& k < logs2[log[k].term].len()
        &&& log.take(k + 1) == logs2[log[k].term].take(k + 1)
    } by {
        let t = log[k].term;
        assert(logs.contains_key(t));
        assert(logs2[t].take(logs[t].len() as int).take(k + 1) == logs2[t].take(k + 1));
    }
}

/// Entries sent out stay traced when the logs of the terms grow.
proof fn lemma_entries_extend(m: Action, logs: TermLogs, logs2: TermLogs)
    requires
        entries_traced(m, logs),
        logs_extend(logs, logs2),
    ensures
        entries_traced(m, logs2),
{
    if let Action::Send { rpc, .. } = m {
        if let Rpc::AppendEntries { term, prev_log_index, prev_log_term, entries, .. } = rpc {
            let g = logs[term];
            let g2 = logs2[term];
            assert(g2.take(g.len() as int) == g);
            assert(g2.subrange(prev_log_index as int, prev_log_index + entries@.len()) == g.subrange(
                prev_log_index as int,
                prev_log_index + entries@.len(),
            ));
            if prev_log_index > 0 {
                assert(g2[prev_log_index - 1] == g[prev_log_index - 1]);
            }
        }
    }
}

/// Message `m`, sent by node `b`, carries entries only as a leader in its
/// term, as a stretch of its log with the term of the entry before it.
spec fn entries_from(m: Action, b: Node) -> bool {
    match m {
        Action::Send { rpc, .. } => match rpc {
            Rpc::AppendEntries { term, prev_log_index, prev_log_term, entries, .. } => {
                &&& b.role == Role::Leader
                &&& term == b.current_term
                &&& prev_log_index + entries@.len() <= b.log@.len()
                &&& entries@ == b.log@.subrange(prev_log_index as int, prev_log_index + entries@.len())
                &&& prev_log_index > 0 ==> b.log@[prev_log_index - 1].term == prev_log_term
            },
            _ => true,
        },
        _ => true,
    }
}

/// Replacing node `id` by `b` keeps the invariant, with the messages
/// `acts` added to those sent, when every leader before and after is the
/// recorded one of its term, the record only grows, `b`'s log is traced
/// (as a leader that stays one it may only add an entry of its term, and a
/// new leader keeps its log and takes a term without a recorded election),
/// and `b` sends entries only as `entries_from` says.
proof fn lemma_log_node_step(
    nodes: Seq<Node>,
    id: usize,
    b: Node,
    sent: Set<Action>,
    acts: Seq<Action>,
    elected: Elections,
    elected2: Elections,
    logs: TermLogs,
)
    requires
        id < nodes.len(),
        logs_traced(nodes, sent, elected, logs),
        forall|t: u64| #[trigger] elected.contains_key(t) ==> elected2.contains_key(t),
        forall|i: usize|
            i < nodes.len() && #[trigger] nodes.update(id as int, b)[i as int].role == Role::Leader ==> elected_in(
                elected2,
                nodes.update(id as int, b)[i as int].current_term,
                i,
            ),
        b.role == Role::Leader && nodes[id as int].role == Role::Leader && b.current_term == nodes[id as int].current_term ==> b.log@
            == nodes[id as int].log@ || (b.log@.len() == nodes[id as int].log@.len() + 1 && b.log@.drop_last() == nodes[id as int].log@
            && b.log@.last().term == b.current_term),
        b.role == Role::Leader && !(nodes[id as int].role == Role::Leader && b.current_term == nodes[id as int].current_term)
            ==> b.log@ == nodes[id as int].log@ && !elected.contains_key(b.current_term),
        b.role != Role::Leader ==> traced(b.log@, logs),
        forall|k: int| 0 <= k < acts.len() ==> entries_from(#[trigger] acts[k], b),
    ensures
        logs_traced(nodes.update(id as int, b), sent + acts.to_set(), elected2, next_logs(logs, nodes.update(id as int, b))),
{
    let nodes2 = nodes.update(id as int, b);
    let logs2 = next_logs(logs, nodes2);
    let a = nodes[id as int];
    let n = nodes.len();
    // The logs of the terms after the step: `b`'s log for its term when it
    // leads, the old ones otherwise.
    assert forall|t: u64| #[trigger] leader_logs(nodes2).contains_key(t) implies logs.contains_key(t) && leader_logs(
        nodes2,
    )[t] == logs[t] || (b.role == Role::Leader && t == b.current_term && leader_logs(nodes2)[t] == b.log@) by {
        let i = choose|i: usize|
            i < nodes2.len() && #[trigger] nodes2[i as int].role == Role::Leader && nodes2[i as int].current_term == t;
        if i != id {
            assert(nodes2[i as int] == nodes[i as int]);
            if b.role == Role::Leader && t == b.current_term {
                assert(nodes2[id as int].role == Role::Leader);
                assert(elected_in(elected2, t, id));
                assert(elected_in(elected2, t, i));
            }
        }
    }
    if b.role == Role::Leader {
        assert(nodes2[id as int].role == Role::Leader);
        assert(leader_logs(nodes2).contains_key(b.current_term));
        assert(logs2[b.current_term] == b.log@);
    }
    assert forall|t: u64| #[trigger] logs2.contains_key(t) && !(b.role == Role::Leader && t == b.current_term) implies logs.contains_key(
        t,
    ) && logs2[t] == logs[t] by {}
    // They extend the old ones.
    assert(logs_extend(logs, logs2)) by {
        assert forall|t: u64| #[trigger] logs.contains_key(t) implies logs2.contains_key(t) && logs[t].len()
            <= logs2[t].len() && logs2[t].take(logs[t].len() as int) == logs[t] by {
            if b.role == Role::Leader && t == b.current_term {
                assert(elected.contains_key(t));
                assert(a.role == Role::Leader && b.current_term == a.current_term);
                assert(nodes[id as int].role == Role::Leader);
                assert(logs[a.current_term] == a.log@);
                if b.log@ != a.log@ {
                    assert(b.log@.take(a.log@.len() as int) == b.log@.drop_last());
                }
            }
        }
    }
    // `b`'s log is traced.
    assert(traced(b.log@, logs2)) by {
        if b.role == Role::Leader {
            if a.role == Role::Leader && b.current_term == a.current_term {
                assert(nodes[id as int].role == Role::Leader);
                assert(traced(a.log@, logs));
                lemma_traced_extend(a.log@, logs, logs2);
                if b.log@ != a.log@ {
                    assert forall|k: int| 0 <= k < b.log@.len() implies {
                        &&& logs2.contains_key(#[trigger] b.log@[k].term)
                        &&& k < logs2[b.log@[k].term].len()
                        &&& b.log@.take(k + 1) == logs2[b.log@[k].term].take(k + 1)
                    } by {
                        if k < a.log@.len() {
                            assert(b.log@[k] == a.log@[k]);
                            assert(b.log@.take(k + 1) == a.log@.take(k + 1));
                        } else {
                            assert(b.log@.take(k + 1) == b.log@);
                        }
                    }
                }
            } else {
                assert(traced(a.log@, logs));
                lemma_traced_extend(a.log@, logs, logs2);
            }
        } else {
            lemma_traced_extend(b.log@, logs, logs2);
        }
    }
    // The kept logs.
    assert forall|t: u64| #[trigger] logs2.contains_key(t) implies elected2.contains_key(t) && traced(logs2[t], logs2) by {
        if b.role == Role::Leader && t == b.current_term {
            assert(elected_in(elected2, b.current_term, id));
        } else {
            assert(traced(logs[t], logs));
            lemma_traced_extend(logs[t], logs, logs2);
        }
    }
    // The nodes' logs.
    assert forall|i: int| 0 <= i < nodes2.len() implies traced(#[trigger] nodes2[i].log@, logs2) by {
        if i != id {
            assert(nodes2[i] == nodes[i]);
            assert(traced(nodes[i].log@, logs));
            lemma_traced_extend(nodes[i].log@, logs, logs2);
        }
    }
    // The leaders' logs.
    assert forall|i: usize| i < nodes2.len() && #[trigger] nodes2[i as int].role == Role::Leader implies logs2.contains_key(
        nodes2[i as int].current_term,
    ) && logs2[nodes2[i as int].current_term] == nodes2[i as int].log@ by {
        if i != id {
            assert(nodes2[i as int] == nodes[i as int]);
            let t = nodes[i as int].current_term;
            assert(logs.contains_key(t) && logs[t] == nodes[i as int].log@);
            if b.role == Role::Leader && t == b.current_term {
                assert(nodes2[id as int].role == Role::Leader);
                assert(elected_in(elected2, t, id));
                assert(elected_in(elected2, t, i));
            }
        }
    }
    // The messages.
    let sent2 = sent + acts.to_set();
    assert forall|m: Action| #[trigger] sent2.contains(m) implies entries_traced(m, logs2) by {
        if sent.contains(m) {
            lemma_entries_extend(m, logs, logs2);
        } else {
            let k = choose|k: int| 0 <= k < acts.len() && acts[k] == m;
            assert(entries_from(acts[k], b));
        }
    }
}

/// Entries a leader sends out are a stretch of its log.
proof fn lemma_append_entries_from(act: Action, ld: Node, id: usize, follower: usize)
    requires
        is_append_entries(act, ld, id, follower),
        ld.role == Role::Leader,
    ensures
        entries_from(act, ld),
{
}

/// Every message of sending entries to all is one from `ld`.
proof fn lemma_all_entries_from(acts: Seq<Action>, ld: Node, id: usize, n: int)
    requires
        sends_entries_to_all(acts, ld, id, n),
        ld.role == Role::Leader,
    ensures
        forall|k: int| 0 <= k < acts.len() ==> entries_from(#[trigger] acts[k], ld),
{
    assert forall|k: int| 0 <= k < acts.len() implies entries_from(#[trigger] acts[k], ld) by {
        lemma_append_entries_from(acts[k], ld, id, peer_of(k, id as int) as usize);
    }
}

/// Every message of taking the lead is one from `b`.
proof fn lemma_leader_actions_entries(acts: Seq<Action>, b: Node, id: usize, n: int)
    requires
        leader_actions(acts, b, id, n),
        b.role == Role::Leader,
    ensures
        forall|k: int| 0 <= k < acts.len() ==> entries_from(#[trigger] acts[k], b),
{
    lemma_all_entries_from(acts.skip(2), b, id, n);
    assert forall|k: int| 0 <= k < acts.len() implies entries_from(#[trigger] acts[k], b) by {
        if k >= 2 {
            assert(acts[k] == acts.skip(2)[k - 2]);
        }
    }
}

/// A node that takes the lead from a candidacy of the same term, or of an
/// earlier one, takes a term without a recorded election.
proof fn lemma_fresh_leader(
    nodes: Seq<Node>,
    id: usize,
    b: Node,
    sent: Set<Action>,
    cast: Set<Vote>,
    elected: Elections,
)
    requires
        id < nodes.len(),
        election_safe(nodes, sent, cast, elected),
        b.role == Role::Leader,
        elected_in(next_elected(elected, nodes.update(id as int, b)), b.current_term, id),
        nodes[id as int].current_term < b.current_term || (nodes[id as int].role == Role::Candidate
            && nodes[id as int].current_term == b.current_term),
    ensures
        !elected.contains_key(b.current_term),
{
    if elected.contains_key(b.current_term) {
        let t = b.current_term;
        assert(next_elected(elected, nodes.update(id as int, b))[t] == elected[t]);
        assert(elected[t].0 == id);
    }
}

/// Where the nodes do not change, the logs of the terms do not either.
proof fn lemma_logs_unchanged(nodes: Seq<Node>, sent: Set<Action>, elected: Elections, logs: TermLogs)
    requires
        logs_traced(nodes, sent, elected, logs),
    ensures
        next_logs(logs, nodes) == logs,
{
    assert forall|t: u64| #[trigger] leader_logs(nodes).contains_key(t) implies logs.contains_key(t) && leader_logs(
        nodes,
    )[t] == logs[t] by {
        let i = choose|i: usize|
            i < nodes.len() && #[trigger] nodes[i as int].role == Role::Leader && nodes[i as int].current_term == t;
    }
    assert(next_logs(logs, nodes) =~= logs);
}

/// Law (log matching, delivery): delivering a message that was sent keeps
/// the invariant, with the messages it sends added to those sent and the
/// records and the logs of the terms moved on.
pub proof fn lemma_deliver_logs_traced(
    a: Cluster,
    b: Cluster,
    acts: Seq<Action>,
    from: usize,
    to: usize,
    rpc: Rpc,
    sent: Set<Action>,
    cast: Set<Vote>,
    elected: Elections,
    logs: TermLogs,
)
    requires
        a.wf(),
        election_safe(a.nodes@, sent, cast, elected),
        logs_traced(a.nodes@, sent, elected, logs),
        sent.contains(Action::Send { from, to, rpc }),
        delivered(a, b, acts, from, to, rpc),
    ensures
        logs_traced(b.nodes@, sent + acts.to_set(), next_elected(elected, b.nodes@), next_logs(logs, b.nodes@)),
{
    lemma_deliver_election_safe(a, b, acts, from, to, rpc, sent, cast, elected);
    let n = a.nodes@.len() as int;
    if to >= a.nodes@.len() || !a.nodes@[to as int].alive {
        assert(b.nodes@ == a.nodes@);
        assert((sent + acts.to_set()) =~= sent);
        lemma_records_unchanged(a.nodes@, sent, cast, elected);
        lemma_logs_unchanged(a.nodes@, sent, elected, logs);
    } else {
        assert(entries_traced(Action::Send { from, to, rpc }, logs));
        lemma_one_node_changed(a, b, to as int);
        let na = a.nodes@[to as int];
        let nb = b.nodes@[to as int];
        assert(na.wf(n));
        assert(traced(na.log@, logs));
        let el2 = next_elected(elected, b.nodes@);
        assert forall|t: u64| #[trigger] elected.contains_key(t) implies el2.contains_key(t) by {}
        if nb.role == Role::Leader {
            assert(elected_in(el2, nb.current_term, to));
        }
        match rpc {
            Rpc::RequestVote { term, candidate_id, last_log_index, last_log_term } => {
                let granted = grants_vote(na, term, candidate_id, last_log_index, last_log_term);
                assert forall|k: int| 0 <= k < acts.len() implies entries_from(#[trigger] acts[k], nb) by {
                    if k == acts.len() - 1 {
                        assert(acts[k] == Action::Send {
                            from: to,
                            to: from,
                            rpc: Rpc::RequestVoteResponse { term: nb.current_term, vote_granted: granted, from: to },
                        });
                    }
                }
            },
            Rpc::RequestVoteResponse { term, vote_granted, from: voter } => {
                if nb.role == Role::Leader && na.role != Role::Leader {
                    lemma_fresh_leader(a.nodes@, to, nb, sent, cast, elected);
                    lemma_leader_actions_entries(acts, nb, to, n);
                }
            },
            Rpc::AppendEntries { term, leader_id, prev_log_index, prev_log_term, entries, leader_commit } => {
                if term >= na.current_term {
                    assert(steps_down(na, term) == (term > na.current_term || na.role != Role::Follower));
                    if prev_matches(na.log@, prev_log_index as int, prev_log_term) {
                        let g = logs[term];
                        assert(logs.contains_key(term) && traced(g, logs));
                        if prev_log_index > 0 {
                            let p = prev_log_index - 1;
                            assert(na.log@[p].term == prev_log_term);
                            assert(g[p].term == prev_log_term);
                            lemma_traced_match(na.log@, g, p, logs);
                        }
                        assert(na.log@.take(prev_log_index as int) == g.take(prev_log_index as int));
                        lemma_merge_traced(na.log@, prev_log_index as int, entries@, g, logs);
                    }
                }
            },
            Rpc::AppendEntriesResponse { term, success, from: follower, match_index } => {
                if term > na.current_term {
                } else if na.role != Role::Leader || term != na.current_term {
                } else if success {
                    if acts.len() > 0 {
                        lemma_all_entries_from(acts.skip(1), nb, to, n);
                        assert forall|k: int| 0 <= k < acts.len() implies entries_from(#[trigger] acts[k], nb) by {
                            if k >= 1 {
                                assert(acts[k] == acts.skip(1)[k - 1]);
                            }
                        }
                    }
                } else {
                    if acts.len() > 0 {
                        lemma_append_entries_from(acts[0], nb, to, follower);
                        assert forall|k: int| 0 <= k < acts.len() implies entries_from(#[trigger] acts[k], nb) by {
                            assert(k == 0);
                        }
                    }
                }
            },
        }
        lemma_log_node_step(a.nodes@, to, nb, sent, acts, elected, el2, logs);
    }
}

/// Law (log matching, start): a cluster whose logs are all empty, with no
/// leader, satisfies the invariant with nothing sent, no election recorded
/// and no log kept.
pub proof fn lemma_new_cluster_logs_traced(c: Cluster)
    requires
        forall|i: int|
            0 <= i < c.nodes@.len() ==> {
                let nd = #[trigger] c.nodes@[i];
                &&& nd.role == Role::Follower
                &&& nd.log@.len() == 0
            },
    ensures
        logs_traced(c.nodes@, Set::empty(), Map::empty(), Map::empty()),
{
    assert forall|i: int| 0 <= i < c.nodes@.len() implies traced(#[trigger] c.nodes@[i].log@, Map::empty()) by {
        assert(c.nodes@[i].log@.len() == 0);
    }
}

/// Law (log matching, elections): an election timeout keeps the
/// invariant; a candidate keeps its log, and in a cluster of one the new
/// leader's log becomes the log of its term.
pub proof fn lemma_election_timeout_logs_traced(
    a: Cluster,
    b: Cluster,
    acts: Seq<Action>,
    id: usize,
    sent: Set<Action>,
    cast: Set<Vote>,
    elected: Elections,
    logs: TermLogs,
)
    requires
        a.wf(),
        election_safe(a.nodes@, sent, cast, elected),
        logs_traced(a.nodes@, sent, elected, logs),
        id < a.nodes@.len(),
        a.nodes@[id as int].current_term < u64::MAX,
        election_timed_out(a, b, acts, id),
    ensures
        logs_traced(b.nodes@, sent + acts.to_set(), next_elected(elected, b.nodes@), next_logs(logs, b.nodes@)),
{
    lemma_election_timeout_election_safe(a, b, acts, id, sent, cast, elected);
    let n = a.nodes@.len() as int;
    let na = a.nodes@[id as int];
    if !(na.alive && na.role != Role::Leader) {
        assert(b.nodes@ == a.nodes@);
        assert((sent + acts.to_set()) =~= sent);
        lemma_records_unchanged(a.nodes@, sent, cast, elected);
        lemma_logs_unchanged(a.nodes@, sent, elected, logs);
    } else {
        lemma_one_node_changed(a, b, id as int);
        let nb = b.nodes@[id as int];
        assert(traced(na.log@, logs));
        let el2 = next_elected(elected, b.nodes@);
        assert forall|t: u64| #[trigger] elected.contains_key(t) implies el2.contains_key(t) by {}
        if nb.role == Role::Leader {
            assert(elected_in(el2, nb.current_term, id));
            lemma_fresh_leader(a.nodes@, id, nb, sent, cast, elected);
            lemma_leader_actions_entries(acts.skip(2), nb, id, n);
            assert forall|k: int| 0 <= k < acts.len() implies entries_from(#[trigger] acts[k], nb) by {
                if k >= 2 {
                    assert(acts[k] == acts.skip(2)[k - 2]);
                }
            }
        } else {
            assert forall|k: int| 0 <= k < acts.len() implies entries_from(#[trigger] acts[k], nb) by {
                if k >= 2 {
                    assert(crate::raft::is_vote_request(
                        acts[2 + (k - 2)],
                        id,
                        peer_of(k - 2, id as int),
                        (na.current_term + 1) as u64,
                        na.log@.len() as usize,
                        crate::raft::last_term(na.log@),
                    ));
                }
            }
        }
        lemma_log_node_step(a.nodes@, id, nb, sent, acts, elected, el2, logs);
    }
}

/// Law (log matching, heartbeats): a heartbeat timeout changes no node and
/// sends stretches of the leader's log, which keeps the invariant.
pub proof fn lemma_heartbeat_logs_traced(
    c: Cluster,
    acts: Seq<Action>,
    id: usize,
    sent: Set<Action>,
    elected: Elections,
    logs: TermLogs,
)
    requires
        logs_traced(c.nodes@, sent, elected, logs),
        id < c.nodes@.len(),
        heartbeat_sent(c, acts, id),
    ensures
        logs_traced(c.nodes@, sent + acts.to_set(), elected, logs),
{
    let nd = c.nodes@[id as int];
    if nd.alive && nd.role == Role::Leader {
        lemma_all_entries_from(acts, nd, id, c.nodes@.len() as int);
        assert(logs.contains_key(nd.current_term) && logs[nd.current_term] == nd.log@);
    }
    assert forall|m: Action| #[trigger] (sent + acts.to_set()).contains(m) implies entries_traced(m, logs) by {
        if !sent.contains(m) {
            let k = choose|k: int| 0 <= k < acts.len() && acts[k] == m;
            assert(entries_from(acts[k], nd));
        }
    }
}

/// Law (log matching, client commands): the leader adds an entry of its
/// term to its log, which grows the log of its term, and sends stretches
/// of it, which keeps the invariant.
#[verifier::rlimit(50)]
pub proof fn lemma_client_command_logs_traced(
    a: Cluster,
    b: Cluster,
    acts: Seq<Action>,
    sent: Set<Action>,
    cast: Set<Vote>,
    elected: Elections,
    logs: TermLogs,
)
    requires
        a.wf(),
        election_safe(a.nodes@, sent, cast, elected),
        logs_traced(a.nodes@, sent, elected, logs),
        client_command_handled(a, b, acts),
    ensures
        logs_traced(b.nodes@, sent + acts.to_set(), next_elected(elected, b.nodes@), next_logs(logs, b.nodes@)),
{
    lemma_client_command_facts(a, b, acts);
    if a.leader_id_spec() is None {
        lemma_refused_command_logs(a, b, acts, sent, cast, elected, logs);
    } else {
        let l = a.leader_id_spec()->0;
        let nb = b.nodes@[l as int];
        let el2 = next_elected(elected, b.nodes@);
        assert(forall|i: usize|
            i < b.nodes@.len() && #[trigger] b.nodes@[i as int].role == Role::Leader ==> elected_in(
                el2,
                b.nodes@[i as int].current_term,
                i,
            )) by {
            lemma_client_command_election_safe(a, b, acts, sent, cast, elected);
            lemma_leaders_recorded(b.nodes@, sent + acts.to_set(), next_cast(cast, b.nodes@), el2);
        }
        assert forall|t: u64| #[trigger] elected.contains_key(t) implies el2.contains_key(t) by {}
        lemma_leader_appends(a.nodes@, l, nb, sent, acts, elected, el2, logs);
    }
}

/// A refused command keeps the invariant.
proof fn lemma_refused_command_logs(
    a: Cluster,
    b: Cluster,
    acts: Seq<Action>,
    sent: Set<Action>,
    cast: Set<Vote>,
    elected: Elections,
    logs: TermLogs,
)
    requires
        election_safe(a.nodes@, sent, cast, elected),
        logs_traced(a.nodes@, sent, elected, logs),
        b == a,
        acts.len() == 1,
        acts[0] is Note,
    ensures
        logs_traced(b.nodes@, sent + acts.to_set(), next_elected(elected, b.nodes@), next_logs(logs, b.nodes@)),
{
    lemma_records_unchanged(a.nodes@, sent, cast, elected);
    lemma_logs_unchanged(a.nodes@, sent, elected, logs);
    assert forall|m: Action| #[trigger] (sent + acts.to_set()).contains(m) implies entries_traced(m, logs) by {
        if !sent.contains(m) {
            let k = choose|k: int| 0 <= k < acts.len() && acts[k] == m;
            assert(k == 0);
        }
    }
}

/// A leader that adds one entry of its term to its log and sends
/// stretches of it keeps the invariant.
proof fn lemma_leader_appends(
    nodes: Seq<Node>,
    l: usize,
    nb: Node,
    sent: Set<Action>,
    acts: Seq<Action>,
    elected: Elections,
    el2: Elections,
    logs: TermLogs,
)
    requires
        l < nodes.len(),
        logs_traced(nodes, sent, elected, logs),
        forall|t: u64| #[trigger] elected.contains_key(t) ==> el2.contains_key(t),
        forall|i: usize|
            i < nodes.len() && #[trigger] nodes.update(l as int, nb)[i as int].role == Role::Leader ==> elected_in(
                el2,
                nodes.update(l as int, nb)[i as int].current_term,
                i,
            ),
        nodes[l as int].role == Role::Leader,
        nb == (Node { log: nb.log, match_index: nb.match_index, next_index: nb.next_index, ..nodes[l as int] }),
        nb.log@.len() == nodes[l as int].log@.len() + 1,
        nb.log@.drop_last() == nodes[l as int].log@,
        nb.log@.last().term == nodes[l as int].current_term,
        acts.len() >= 1,
        acts[0] is Note,
        sends_entries_to_all(acts.skip(1), nb, l, nodes.len() as int),
    ensures
        logs_traced(nodes.update(l as int, nb), sent + acts.to_set(), el2, next_logs(logs, nodes.update(l as int, nb))),
{
    lemma_all_entries_from(acts.skip(1), nb, l, nodes.len() as int);
    assert forall|k: int| 0 <= k < acts.len() implies entries_from(#[trigger] acts[k], nb) by {
        if k >= 1 {
            assert(acts[k] == acts.skip(1)[k - 1]);
        }
    }
    lemma_log_node_step(nodes, l, nb, sent, acts, elected, el2, logs);
}

/// Law (log matching, applying entries): applying committed entries
/// changes no log, which keeps the invariant.
pub proof fn lemma_apply_logs_traced(
    a: Cluster,
    b: Cluster,
    id: usize,
    sent: Set<Action>,
    cast: Set<Vote>,
    elected: Elections,
    logs: TermLogs,
)
    requires
        a.wf(),
        election_safe(a.nodes@, sent, cast, elected),
        logs_traced(a.nodes@, sent, elected, logs),
        id < a.nodes@.len(),
        entries_applied(a, b, id),
    ensures
        logs_traced(b.nodes@, sent, next_elected(elected, b.nodes@), next_logs(logs, b.nodes@)),
{
    lemma_apply_election_safe(a, b, id, sent, cast, elected);
    lemma_one_node_changed(a, b, id as int);
    let na = a.nodes@[id as int];
    let nb = b.nodes@[id as int];
    assert(traced(na.log@, logs));
    let el2 = next_elected(elected, b.nodes@);
    assert forall|t: u64| #[trigger] elected.contains_key(t) implies el2.contains_key(t) by {}
    let acts = Seq::<Action>::empty();
    lemma_log_node_step(a.nodes@, id, nb, sent, acts, elected, el2, logs);
    assert((sent + acts.to_set()) =~= sent);
}

/// Law (log matching, crashes and restarts): crashing or restarting a node
/// changes no log and leaves it a follower, which keeps the invariant,
/// under the same condition on restarts as for election safety.
pub proof fn lemma_toggle_logs_traced(
    a: Cluster,
    b: Cluster,
    acts: Seq<Action>,
    id: usize,
    sent: Set<Action>,
    cast: Set<Vote>,
    elected: Elections,
    logs: TermLogs,
)
    requires
        a.wf(),
        election_safe(a.nodes@, sent, cast, elected),
        logs_traced(a.nodes@, sent, elected, logs),
        toggled(a, b, acts, id),
        id < a.nodes@.len() && !a.nodes@[id as int].alive ==> a.nodes@[id as int].voted_for is None || (
        a.nodes@[id as int].voted_for == Some(id) && !elected_in(elected, a.nodes@[id as int].current_term, id)),
    ensures
        logs_traced(b.nodes@, sent + acts.to_set(), next_elected(elected, b.nodes@), next_logs(logs, b.nodes@)),
{
    lemma_toggle_election_safe(a, b, acts, id, sent, cast, elected);
    if id >= a.nodes@.len() {
        assert(b.nodes@ == a.nodes@);
        assert((sent + acts.to_set()) =~= sent);
        lemma_records_unchanged(a.nodes@, sent, cast, elected);
        lemma_logs_unchanged(a.nodes@, sent, elected, logs);
    } else {
        lemma_one_node_changed(a, b, id as int);
        let na = a.nodes@[id as int];
        let nb = b.nodes@[id as int];
        assert(traced(na.log@, logs));
        let el2 = next_elected(elected, b.nodes@);
        assert forall|t: u64| #[trigger] elected.contains_key(t) implies el2.contains_key(t) by {}
        lemma_log_node_step(a.nodes@, id, nb, sent, acts, elected, el2, logs);
    }
}

} // verus!
