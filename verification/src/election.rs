//! Election safety of the simulated Raft cluster: a term has at most one
//! leader, ever.  The argument runs over the cluster, the messages sent so
//! far, a record of every vote granted so far, `(term, voter, candidate)`,
//! and a record of every election won so far, from a term to its leader and
//! the votes that elected it: an invariant that the cluster starts in and
//! that each of its operations keeps, never changing a recorded election,
//! and under which every leader is the one recorded for its term.

use crate::raft::{
    append_entries_outcome, append_response_outcome, client_command_handled, delivered,
    election_timed_out, entries_applied, grants_vote, heartbeat_sent, is_append_entries,
    is_vote_request, last_term, leader_actions, lemma_quorums_intersect, majority_of, peer_of,
    sends_entries_to_all, steps_down, toggled, vote_request_outcome, vote_response_outcome, Action,
    Cluster, LogEntry, Node, Role, Rpc,
};
use vstd::prelude::*;

verus! {

/// A granted vote: in a term, a voter, for a candidate.
pub type Vote = (u64, usize, usize);

/// Won elections: a term, its leader and the votes that elected it.
pub type Elections = Map<u64, (usize, Seq<usize>)>;

/// The votes that the nodes hold now: node `v` voted for `c` in its
/// current term.
pub open spec fn votes_now(nodes: Seq<Node>) -> Set<Vote> {
    Set::new(
        |x: Vote|
            x.1 < nodes.len() && nodes[x.1 as int].current_term == x.0 && nodes[x.1 as int].voted_for == Some(
                x.2,
            ),
    )
}

/// The leaders now, by term (each with the votes it holds).
pub open spec fn leaders_now(nodes: Seq<Node>) -> Elections {
    Map::new(
        |t: u64|
            exists|i: usize|
                i < nodes.len() && #[trigger] nodes[i as int].role == Role::Leader && nodes[i as int].current_term
                    == t,
        |t: u64|
            {
                let i = choose|i: usize|
                    i < nodes.len() && #[trigger] nodes[i as int].role == Role::Leader && nodes[i as int].current_term
                        == t;
                (i, nodes[i as int].votes_received@)
            },
    )
}

/// Node `v` won the election of `term`.
pub open spec fn elected_in(elected: Elections, term: u64, v: usize) -> bool {
    elected.contains_key(term) && elected[term].0 == v
}

/// The record `cast` of granted votes agrees with the nodes: it holds every
/// vote they hold now; no vote is of a term after its voter's; a vote of
/// the voter's current term is the one it holds, or its own vote that it
/// gave up as a follower; and in one term a voter voted for at most one
/// node, apart from a vote for itself in a term it did not win.
pub open spec fn record_agrees(nodes: Seq<Node>, cast: Set<Vote>, elected: Elections) -> bool {
    &&& votes_now(nodes).subset_of(cast)
    &&& forall|x: Vote| #[trigger]
        cast.contains(x) ==> {
            &&& x.1 < nodes.len()
            &&& x.0 <= nodes[x.1 as int].current_term
            &&& x.0 == nodes[x.1 as int].current_term ==> nodes[x.1 as int].voted_for == Some(x.2) || (x.2
                == x.1 && nodes[x.1 as int].role == Role::Follower)
        }
    &&& forall|x: Vote, y: Vote|
        #[trigger] cast.contains(x) && #[trigger] cast.contains(y) && x.0 == y.0 && x.1 == y.1 ==> x.2 == y.2
            || (x.2 == x.1 && !elected_in(elected, x.0, x.1)) || (y.2 == y.1 && !elected_in(elected, y.0, y.1))
}

/// Every recorded election was won by a node of the cluster with a
/// majority of distinct votes that are in the record; its leader has not
/// gone back to an earlier term, and while still in the term it won it
/// holds its own vote and is not a candidate; and every leader now is the
/// one recorded for its term.
pub open spec fn elections_backed(nodes: Seq<Node>, cast: Set<Vote>, elected: Elections) -> bool {
    &&& forall|t: u64| #[trigger]
        elected.contains_key(t) ==> {
            let l = elected[t].0;
            let q = elected[t].1;
            &&& l < nodes.len()
            &&& q.len() >= majority_of(nodes.len() as int)
            &&& forall|i: int, j: int| 0 <= i < j < q.len() ==> q[i] != q[j]
            &&& forall|k: int| 0 <= k < q.len() ==> #[trigger] q[k] < nodes.len() && cast.contains((t, q[k], l))
            &&& nodes[l as int].current_term >= t
            &&& nodes[l as int].current_term == t ==> nodes[l as int].voted_for == Some(l) && nodes[l as int].role
                != Role::Candidate
        }
    &&& forall|i: usize|
        i < nodes.len() && #[trigger] nodes[i as int].role == Role::Leader ==> elected_in(
            elected,
            nodes[i as int].current_term,
            i,
        )
}

/// Node `c`, number `id` of a cluster of `n`, counts only votes granted to
/// it in its current term by nodes of the cluster, and as leader it counts
/// a majority.
pub open spec fn tally_backed(c: Node, id: int, n: int, cast: Set<Vote>) -> bool {
    &&& (c.role == Role::Candidate || c.role == Role::Leader) ==> forall|k: int|
        0 <= k < c.votes_received@.len() ==> #[trigger] c.votes_received@[k] < n && cast.contains(
            (c.current_term, c.votes_received@[k], id as usize),
        )
    &&& c.role == Role::Leader ==> c.votes_received@.len() >= majority_of(n)
}

/// A message sent in a cluster of `n` is backed by the records: a vote
/// request names its sender as the candidate; a granted vote comes from a
/// node of the cluster and is in the record; entries come from the
/// recorded leader of their term, to another node; and an answer to them
/// names its sender and goes to another node.
pub open spec fn message_backed(m: Action, n: int, cast: Set<Vote>, elected: Elections) -> bool {
    match m {
        Action::Send { from, to, rpc } => match rpc {
            Rpc::RequestVote { candidate_id, .. } => candidate_id == from,
            Rpc::RequestVoteResponse { term, vote_granted, from: voter } => vote_granted ==> voter < n
                && cast.contains((term, voter, to)),
            Rpc::AppendEntries { term, .. } => from != to && elected_in(elected, term, from),
            Rpc::AppendEntriesResponse { from: follower, .. } => follower == from && from != to,
        },
        _ => true,
    }
}

/// The invariant behind election safety, over the nodes, the messages sent
/// so far, the record of the votes granted so far and the record of the
/// elections won so far.
pub open spec fn election_safe(nodes: Seq<Node>, sent: Set<Action>, cast: Set<Vote>, elected: Elections) -> bool {
    &&& record_agrees(nodes, cast, elected)
    &&& elections_backed(nodes, cast, elected)
    &&& forall|i: int| 0 <= i < nodes.len() ==> #[trigger] tally_backed(nodes[i], i, nodes.len() as int, cast)
    &&& forall|m: Action| #[trigger] sent.contains(m) ==> message_backed(m, nodes.len() as int, cast, elected)
}

/// The records after a step that changed the nodes to `nodes`: the votes
/// they hold now are added to `cast`, and a leader of a term that has no
/// recorded election is recorded with the votes it holds.
pub open spec fn next_cast(cast: Set<Vote>, nodes: Seq<Node>) -> Set<Vote> {
    cast + votes_now(nodes)
}

pub open spec fn next_elected(elected: Elections, nodes: Seq<Node>) -> Elections {
    leaders_now(nodes).union_prefer_right(elected)
}

/// Two duplicate-free lists of nodes of a cluster of `n`, each of at least
/// a majority, share a node.
proof fn lemma_tallies_overlap(a: Seq<usize>, b: Seq<usize>, n: int) -> (pq: (int, int))
    requires
        0 <= n,
        forall|i: int, j: int| 0 <= i < j < a.len() ==> a[i] != a[j],
        forall|i: int, j: int| 0 <= i < j < b.len() ==> b[i] != b[j],
        forall|k: int| 0 <= k < a.len() ==> #[trigger] a[k] < n,
        forall|k: int| 0 <= k < b.len() ==> #[trigger] b[k] < n,
        a.len() >= majority_of(n),
        b.len() >= majority_of(n),
    ensures
        0 <= pq.0 < a.len(),
        0 <= pq.1 < b.len(),
        a[pq.0] == b[pq.1],
{
    broadcast use vstd::seq_lib::group_seq_properties;

    let f = |x: usize| x as int;
    assert(vstd::relations::injective(f)) by {
        assert forall|x: usize, y: usize| #[trigger] f(x) == #[trigger] f(y) implies x == y by {}
    }
    assert(a.no_duplicates()) by {
        assert forall|i: int, j: int| 0 <= i < a.len() && 0 <= j < a.len() && i != j implies a[i] != a[j] by {
            if i > j {
                assert(a[j] != a[i]);
            }
        }
    }
    assert(b.no_duplicates()) by {
        assert forall|i: int, j: int| 0 <= i < b.len() && 0 <= j < b.len() && i != j implies b[i] != b[j] by {
            if i > j {
                assert(b[j] != b[i]);
            }
        }
    }
    let fa = a.map_values(f);
    let fb = b.map_values(f);
    a.lemma_no_duplicates_injective(f);
    b.lemma_no_duplicates_injective(f);
    fa.unique_seq_to_set();
    fb.unique_seq_to_set();
    let sa = fa.to_set();
    let sb = fb.to_set();
    assert forall|x: int| #[trigger] sa.contains(x) implies 0 <= x < n by {
        let k = choose|k: int| 0 <= k < fa.len() && fa[k] == x;
        assert(fa[k] == a[k] as int);
    }
    assert forall|x: int| #[trigger] sb.contains(x) implies 0 <= x < n by {
        let k = choose|k: int| 0 <= k < fb.len() && fb[k] == x;
        assert(fb[k] == b[k] as int);
    }
    lemma_quorums_intersect(n, sa, sb);
    let x = choose|x: int| sa.contains(x) && sb.contains(x);
    let p = choose|p: int| 0 <= p < fa.len() && fa[p] == x;
    let q = choose|q: int| 0 <= q < fb.len() && fb[q] == x;
    assert(fa[p] == a[p] as int);
    assert(fb[q] == b[q] as int);
    (p, q)
}

/// Law (election safety): where the invariant holds, every leader is the
/// one recorded for its term, so two leaders of the same term are the same
/// node; and since every operation keeps the invariant while moving the
/// records on to `next_elected`, which keeps every recorded election
/// (`lemma_next_elected_keeps`), a term never has a second leader later
/// either.
pub proof fn lemma_one_leader_per_term(
    c: Cluster,
    sent: Set<Action>,
    cast: Set<Vote>,
    elected: Elections,
    i: usize,
    j: usize,
)
    requires
        election_safe(c.nodes@, sent, cast, elected),
        i < c.nodes@.len(),
        j < c.nodes@.len(),
        c.nodes@[i as int].role == Role::Leader,
        c.nodes@[j as int].role == Role::Leader,
        c.nodes@[i as int].current_term == c.nodes@[j as int].current_term,
    ensures
        i == j,
        elected_in(elected, c.nodes@[i as int].current_term, i),
{
    assert(elected_in(elected, c.nodes@[i as int].current_term, i));
    assert(elected_in(elected, c.nodes@[j as int].current_term, j));
}

/// Law (election safety, a won election stays won): moving the records on
/// keeps every recorded election as it was.
pub proof fn lemma_next_elected_keeps(elected: Elections, nodes: Seq<Node>)
    ensures
        forall|t: u64| #[trigger]
            elected.contains_key(t) ==> next_elected(elected, nodes).contains_key(t) && next_elected(
                elected,
                nodes,
            )[t] == elected[t],
{
}

/// How node `a` may change into node `b` while the record stays in
/// agreement: its term does not go down, and within a term it keeps its
/// vote (a follower staying a follower), casts one as a follower that had
/// none, or gives up its own vote when it steps down to follower.
spec fn vote_step_ok(a: Node, b: Node) -> bool {
    &&& b.current_term >= a.current_term
    &&& b.current_term == a.current_term ==> {
        ||| b.voted_for == a.voted_for && (b.role == Role::Follower || a.role != Role::Follower)
        ||| a.voted_for is None && b.role == Role::Follower
        ||| a.voted_for == Some(a.id) && b.voted_for is None && b.role == Role::Follower
    }
}

/// Message `m`, sent by node `id` in state `b` in a cluster of `n`, is
/// backed by the vote record `cast`: as `message_backed` asks, with entries
/// sent only by `b` as leader in its term.
spec fn message_from(m: Action, id: usize, b: Node, n: int, cast: Set<Vote>) -> bool {
    match m {
        Action::Send { from, to, rpc } => match rpc {
            Rpc::RequestVote { candidate_id, .. } => candidate_id == from,
            Rpc::RequestVoteResponse { term, vote_granted, from: voter } => vote_granted ==> voter < n
                && cast.contains((term, voter, to)),
            Rpc::AppendEntries { term, .. } => from == id && to != id && term == b.current_term && b.role
                == Role::Leader,
            Rpc::AppendEntriesResponse { from: follower, .. } => follower == from && from != to,
        },
        _ => true,
    }
}

/// Replacing node `id` by `b` keeps the invariant, with the messages
/// `acts` added to those sent and the records moved on, when `b` changes
/// as `vote_step_ok` allows, counts only backed votes, keeps its own vote
/// in a term it won, takes the lead only of a term without a recorded
/// election (or of the one it won), and sends only backed messages.
proof fn lemma_node_step(
    nodes: Seq<Node>,
    id: int,
    b: Node,
    sent: Set<Action>,
    acts: Seq<Action>,
    cast: Set<Vote>,
    elected: Elections,
)
    requires
        0 <= id < nodes.len(),
        forall|i: int| 0 <= i < nodes.len() ==> #[trigger] nodes[i].id == i,
        b.id == id,
        b.wf(nodes.len() as int),
        election_safe(nodes, sent, cast, elected),
        vote_step_ok(nodes[id], b),
        tally_backed(b, id, nodes.len() as int, next_cast(cast, nodes.update(id, b))),
        elected_in(elected, b.current_term, id as usize) ==> b.voted_for == Some(id as usize) && b.role
            != Role::Candidate,
        b.role == Role::Leader && !elected_in(elected, b.current_term, id as usize) ==> !elected.contains_key(
            b.current_term,
        ),
        forall|k: int|
            0 <= k < acts.len() ==> message_from(
                #[trigger] acts[k],
                id as usize,
                b,
                nodes.len() as int,
                next_cast(cast, nodes.update(id, b)),
            ),
    ensures
        election_safe(
            nodes.update(id, b),
            sent + acts.to_set(),
            next_cast(cast, nodes.update(id, b)),
            next_elected(elected, nodes.update(id, b)),
        ),
{
    let nodes2 = nodes.update(id, b);
    let cast2 = next_cast(cast, nodes2);
    let el2 = next_elected(elected, nodes2);
    let n = nodes.len() as int;
    let a = nodes[id];
    assert(a.id == id);
    // The records of elections: the old ones stay, and a new one can only
    // be `b`'s.
    assert forall|t: u64| #[trigger] leaders_now(nodes2).contains_key(t) && !elected.contains_key(t) implies t
        == b.current_term && b.role == Role::Leader && leaders_now(nodes2)[t] == (id as usize, b.votes_received@) by {
        let i = choose|i: usize|
            i < nodes2.len() && #[trigger] nodes2[i as int].role == Role::Leader && nodes2[i as int].current_term == t;
        if i != id {
            assert(nodes2[i as int] == nodes[i as int]);
            assert(elected_in(elected, nodes[i as int].current_term, i));
        }
    }
    assert forall|t: u64| #[trigger] elected.contains_key(t) implies el2.contains_key(t) && el2[t] == elected[t] by {}
    assert forall|t: u64, v: usize| #[trigger] elected_in(el2, t, v) && !elected_in(elected, t, v) implies t
        == b.current_term && v == id && b.role == Role::Leader && !elected.contains_key(t) by {
        assert(leaders_now(nodes2).contains_key(t));
    }
    if b.role == Role::Leader {
        if !elected_in(elected, b.current_term, id as usize) {
            assert(nodes2[id].role == Role::Leader);
            assert(leaders_now(nodes2).contains_key(b.current_term));
        }
        assert(elected_in(el2, b.current_term, id as usize));
    }
    // The vote record.
    assert forall|x: Vote| #[trigger] votes_now(nodes2).contains(x) && x.1 != id implies cast.contains(x) by {
        assert(nodes2[x.1 as int] == nodes[x.1 as int]);
        assert(votes_now(nodes).contains(x));
    }
    assert forall|x: Vote| #[trigger] cast2.contains(x) implies {
        &&& x.1 < nodes2.len()
        &&& x.0 <= nodes2[x.1 as int].current_term
        &&& x.0 == nodes2[x.1 as int].current_term ==> nodes2[x.1 as int].voted_for == Some(x.2) || (x.2 == x.1
            && nodes2[x.1 as int].role == Role::Follower)
    } by {
        if !votes_now(nodes2).contains(x) {
            assert(cast.contains(x));
            if x.1 != id {
                assert(nodes2[x.1 as int] == nodes[x.1 as int]);
            }
        }
    }
    assert forall|x: Vote, y: Vote|
        #[trigger] cast2.contains(x) && #[trigger] cast2.contains(y) && x.0 == y.0 && x.1 == y.1 implies x.2 == y.2
            || (x.2 == x.1 && !elected_in(el2, x.0, x.1)) || (y.2 == y.1 && !elected_in(el2, y.0, y.1)) by {
        let t = x.0;
        let v = x.1;
        if elected_in(el2, t, v) {
            if t == nodes2[v as int].current_term {
                if elected_in(elected, t, v) && v != id {
                    assert(nodes2[v as int] == nodes[v as int]);
                }
                assert(nodes2[v as int].voted_for == Some(v));
            } else {
                assert(elected_in(elected, t, v));
                if !(cast.contains(x) && cast.contains(y)) {
                    if !cast.contains(x) {
                        assert(votes_now(nodes2).contains(x));
                    } else {
                        assert(votes_now(nodes2).contains(y));
                    }
                }
            }
        } else {
            if cast.contains(x) && cast.contains(y) {
            } else if !cast.contains(x) {
                assert(votes_now(nodes2).contains(x));
                assert(x.1 == id);
                if b.voted_for == a.voted_for && b.current_term == a.current_term {
                    assert(votes_now(nodes).contains(x));
                }
                if !votes_now(nodes2).contains(y) {
                    assert(cast.contains(y));
                }
            } else {
                assert(votes_now(nodes2).contains(y));
                assert(y.1 == id);
                if b.voted_for == a.voted_for && b.current_term == a.current_term {
                    assert(votes_now(nodes).contains(y));
                }
            }
        }
    }
    assert(record_agrees(nodes2, cast2, el2));
    // The elections.
    assert forall|t: u64| #[trigger] el2.contains_key(t) implies {
        let l = el2[t].0;
        let q = el2[t].1;
        &&& l < nodes2.len()
        &&& q.len() >= majority_of(n)
        &&& forall|i: int, j: int| 0 <= i < j < q.len() ==> q[i] != q[j]
        &&& forall|k: int| 0 <= k < q.len() ==> #[trigger] q[k] < nodes2.len() && cast2.contains((t, q[k], l))
        &&& nodes2[l as int].current_term >= t
        &&& nodes2[l as int].current_term == t ==> nodes2[l as int].voted_for == Some(l) && nodes2[l as int].role
            != Role::Candidate
    } by {
        if elected.contains_key(t) {
            let l = elected[t].0;
            let q = elected[t].1;
            if l != id {
                assert(nodes2[l as int] == nodes[l as int]);
            }
            assert forall|k: int| 0 <= k < q.len() implies #[trigger] q[k] < nodes2.len() && cast2.contains(
                (t, q[k], l),
            ) by {
                assert(q[k] < nodes.len() && cast.contains((t, q[k], l)));
            }
        } else {
            assert(leaders_now(nodes2).contains_key(t));
            assert(tally_backed(b, id, n, cast2));
        }
    }
    assert forall|i: usize| i < nodes2.len() && #[trigger] nodes2[i as int].role == Role::Leader implies elected_in(
        el2,
        nodes2[i as int].current_term,
        i,
    ) by {
        if i != id {
            assert(nodes2[i as int] == nodes[i as int]);
            assert(elected_in(elected, nodes[i as int].current_term, i));
        }
    }
    assert(elections_backed(nodes2, cast2, el2));
    // The tallies.
    assert forall|i: int| 0 <= i < nodes2.len() implies #[trigger] tally_backed(nodes2[i], i, n, cast2) by {
        if i != id {
            assert(nodes2[i] == nodes[i]);
            assert(tally_backed(nodes[i], i, n, cast));
        }
    }
    // The messages.
    let sent2 = sent + acts.to_set();
    assert forall|m: Action| #[trigger] sent2.contains(m) implies message_backed(m, n, cast2, el2) by {
        if sent.contains(m) {
            assert(message_backed(m, n, cast, elected));
            if let Action::Send { from, to, rpc } = m {
                if let Rpc::AppendEntries { term, .. } = rpc {
                    assert(elected_in(el2, term, from));
                }
            }
        } else {
            let k = choose|k: int| 0 <= k < acts.len() && acts[k] == m;
            assert(message_from(acts[k], id as usize, b, n, cast2));
        }
    }
}


/// A tally only grows with the record.
proof fn lemma_tally_grows(c: Node, id: int, n: int, cast: Set<Vote>, cast2: Set<Vote>)
    requires
        cast.subset_of(cast2),
        tally_backed(c, id, n, cast),
    ensures
        tally_backed(c, id, n, cast2),
{
}

/// The entries a leader `ld` (node `id` of a cluster of `n`) sends out are
/// sent by `b` as leader in its term, to other nodes.
proof fn lemma_entries_from(acts: Seq<Action>, ld: Node, id: usize, n: int, b: Node, cast: Set<Vote>)
    requires
        n <= usize::MAX,
        sends_entries_to_all(acts, ld, id, n),
        b.role == Role::Leader,
        b.current_term == ld.current_term,
    ensures
        forall|k: int| 0 <= k < acts.len() ==> message_from(#[trigger] acts[k], id, b, n, cast),
{
    assert forall|k: int| 0 <= k < acts.len() implies message_from(#[trigger] acts[k], id, b, n, cast) by {
        assert(is_append_entries(acts[k], ld, id, peer_of(k, id as int) as usize));
    }
}

/// Every message of taking the lead is sent by `b` as leader.
proof fn lemma_leader_actions_from(acts: Seq<Action>, b: Node, id: usize, n: int, cast: Set<Vote>)
    requires
        n <= usize::MAX,
        leader_actions(acts, b, id, n),
        b.role == Role::Leader,
    ensures
        forall|k: int| 0 <= k < acts.len() ==> message_from(#[trigger] acts[k], id, b, n, cast),
{
    lemma_entries_from(acts.skip(2), b, id, n, b, cast);
    assert forall|k: int| 0 <= k < acts.len() implies message_from(#[trigger] acts[k], id, b, n, cast) by {
        if k >= 2 {
            assert(acts[k] == acts.skip(2)[k - 2]);
        }
    }
}

/// A candidate of term `t` whose votes, all in the record, are a
/// majority, takes the lead of a term that has no recorded election.
proof fn lemma_new_leader_unrecorded(
    nodes: Seq<Node>,
    id: usize,
    votes: Seq<usize>,
    t: u64,
    sent: Set<Action>,
    cast: Set<Vote>,
    elected: Elections,
)
    requires
        id < nodes.len(),
        election_safe(nodes, sent, cast, elected),
        nodes[id as int].role == Role::Candidate,
        nodes[id as int].current_term == t,
        nodes[id as int].voted_for == Some(id),
        forall|i: int, j: int| 0 <= i < j < votes.len() ==> votes[i] != votes[j],
        votes.len() >= majority_of(nodes.len() as int),
        forall|k: int| 0 <= k < votes.len() ==> #[trigger] votes[k] < nodes.len() && cast.contains((t, votes[k], id)),
    ensures
        !elected.contains_key(t),
{
    if elected.contains_key(t) {
        let n = nodes.len() as int;
        let l = elected[t].0;
        let q = elected[t].1;
        assert forall|k: int| 0 <= k < q.len() implies #[trigger] q[k] < n by {
            assert(q[k] < nodes.len() && cast.contains((t, q[k], l)));
        }
        let (p, r) = lemma_tallies_overlap(q, votes, n);
        let v = q[p];
        assert(votes[r] == v);
        let x = (t, v, l);
        let y = (t, v, id);
        assert(cast.contains(x));
        assert(cast.contains(y));
        assert(elected_in(elected, t, l));
        if l == id {
            assert(nodes[l as int].role != Role::Candidate);
        } else if v == id {
            assert(cast.contains((t, id, l)));
            assert(nodes[id as int].voted_for == Some(l) || (l == id && nodes[id as int].role == Role::Follower));
        } else {
            assert(x.2 == y.2 || (x.2 == x.1 && !elected_in(elected, x.0, x.1)) || (y.2 == y.1 && !elected_in(
                elected,
                y.0,
                y.1,
            )));
        }
    }
}

/// Answering a vote request whose candidate is the sender keeps the
/// invariant.
proof fn lemma_vote_request_step(
    nodes: Seq<Node>,
    to: int,
    b: Node,
    acts: Seq<Action>,
    sent: Set<Action>,
    cast: Set<Vote>,
    elected: Elections,
    reply_to: usize,
    term: u64,
    candidate: usize,
    last_log_index: usize,
    last_log_term: u64,
)
    requires
        0 <= to < nodes.len(),
        forall|i: int| 0 <= i < nodes.len() ==> #[trigger] nodes[i].id == i,
        nodes[to].wf(nodes.len() as int),
        b.wf(nodes.len() as int),
        election_safe(nodes, sent, cast, elected),
        vote_request_outcome(nodes[to], b, acts, to as usize, reply_to, term, candidate, last_log_index, last_log_term),
        candidate == reply_to,
    ensures
        election_safe(
            nodes.update(to, b),
            sent + acts.to_set(),
            next_cast(cast, nodes.update(to, b)),
            next_elected(elected, nodes.update(to, b)),
        ),
{
    let n = nodes.len() as int;
    let a = nodes[to];
    let nodes2 = nodes.update(to, b);
    let cast2 = next_cast(cast, nodes2);
    let granted = grants_vote(a, term, candidate, last_log_index, last_log_term);
    assert(tally_backed(a, to, n, cast));
    lemma_tally_grows(a, to, n, cast, cast2);
    if granted {
        assert(nodes2[to] == b);
        assert(votes_now(nodes2).contains((b.current_term, to as usize, candidate)));
    }
    if elected_in(elected, b.current_term, to as usize) {
        assert(elected.contains_key(b.current_term));
    }
    if b.role == Role::Leader {
        assert(elected_in(elected, a.current_term, to as usize));
    }
    assert forall|k: int| 0 <= k < acts.len() implies message_from(#[trigger] acts[k], to as usize, b, n, cast2) by {
        if k == acts.len() - 1 {
            assert(acts[k] == Action::Send {
                from: to as usize,
                to: reply_to,
                rpc: Rpc::RequestVoteResponse { term: b.current_term, vote_granted: granted, from: to as usize },
            });
        }
    }
    lemma_node_step(nodes, to, b, sent, acts, cast, elected);
}

/// Counting a granted vote that is in the record keeps the invariant.
proof fn lemma_vote_response_step(
    nodes: Seq<Node>,
    to: int,
    b: Node,
    acts: Seq<Action>,
    sent: Set<Action>,
    cast: Set<Vote>,
    elected: Elections,
    term: u64,
    granted: bool,
    voter: usize,
)
    requires
        0 <= to < nodes.len(),
        nodes.len() <= usize::MAX,
        forall|i: int| 0 <= i < nodes.len() ==> #[trigger] nodes[i].id == i,
        nodes[to].wf(nodes.len() as int),
        b.wf(nodes.len() as int),
        election_safe(nodes, sent, cast, elected),
        vote_response_outcome(nodes[to], b, acts, nodes.len() as int, to as usize, term, granted, voter),
        granted ==> voter < nodes.len() && cast.contains((term, voter, to as usize)),
    ensures
        election_safe(
            nodes.update(to, b),
            sent + acts.to_set(),
            next_cast(cast, nodes.update(to, b)),
            next_elected(elected, nodes.update(to, b)),
        ),
{
    let n = nodes.len() as int;
    let a = nodes[to];
    let nodes2 = nodes.update(to, b);
    let cast2 = next_cast(cast, nodes2);
    assert(tally_backed(a, to, n, cast));
    lemma_tally_grows(a, to, n, cast, cast2);
    if elected_in(elected, b.current_term, to as usize) {
        assert(elected.contains_key(b.current_term));
    }
    if term > a.current_term {
    } else if a.role != Role::Candidate || term != a.current_term || !granted {
        if b.role == Role::Leader {
            assert(elected_in(elected, a.current_term, to as usize));
        }
    } else {
        let votes = if a.votes_received@.contains(voter) {
            a.votes_received@
        } else {
            a.votes_received@.push(voter)
        };
        assert(b.votes_received@ == votes);
        assert forall|k: int| 0 <= k < votes.len() implies #[trigger] votes[k] < n && cast.contains(
            (a.current_term, votes[k], to as usize),
        ) by {
            if k < a.votes_received@.len() {
                assert(votes[k] == a.votes_received@[k]);
            }
        }
        assert forall|k: int| 0 <= k < b.votes_received@.len() implies #[trigger] b.votes_received@[k] < n
            && cast2.contains((b.current_term, b.votes_received@[k], to as usize)) by {
            assert(votes[k] < n && cast.contains((a.current_term, votes[k], to as usize)));
        }
        if votes.len() >= majority_of(n) {
            lemma_new_leader_unrecorded(nodes, to as usize, votes, a.current_term, sent, cast, elected);
            lemma_leader_actions_from(acts, b, to as usize, n, cast2);
        }
    }
    lemma_node_step(nodes, to, b, sent, acts, cast, elected);
}

/// Taking entries from the recorded leader of their term, another node,
/// keeps the invariant.
proof fn lemma_append_entries_step(
    nodes: Seq<Node>,
    to: int,
    b: Node,
    acts: Seq<Action>,
    sent: Set<Action>,
    cast: Set<Vote>,
    elected: Elections,
    reply_to: usize,
    term: u64,
    prev: usize,
    prev_term: u64,
    entries: Seq<LogEntry>,
    leader_commit: usize,
)
    requires
        0 <= to < nodes.len(),
        forall|i: int| 0 <= i < nodes.len() ==> #[trigger] nodes[i].id == i,
        nodes[to].wf(nodes.len() as int),
        b.wf(nodes.len() as int),
        election_safe(nodes, sent, cast, elected),
        append_entries_outcome(nodes[to], b, acts, to as usize, reply_to, term, prev, prev_term, entries, leader_commit),
        reply_to != to,
        elected_in(elected, term, reply_to),
    ensures
        election_safe(
            nodes.update(to, b),
            sent + acts.to_set(),
            next_cast(cast, nodes.update(to, b)),
            next_elected(elected, nodes.update(to, b)),
        ),
{
    let n = nodes.len() as int;
    let a = nodes[to];
    let nodes2 = nodes.update(to, b);
    let cast2 = next_cast(cast, nodes2);
    assert(tally_backed(a, to, n, cast));
    lemma_tally_grows(a, to, n, cast, cast2);
    if term >= a.current_term {
        assert(steps_down(a, term) == (term > a.current_term || a.role != Role::Follower));
    }
    if elected_in(elected, b.current_term, to as usize) {
        assert(elected.contains_key(b.current_term));
    }
    if b.role == Role::Leader {
        assert(elected_in(elected, a.current_term, to as usize));
    }
    lemma_node_step(nodes, to, b, sent, acts, cast, elected);
}

/// A leader taking an answer from another node keeps the invariant.
proof fn lemma_append_response_step(
    nodes: Seq<Node>,
    to: int,
    b: Node,
    acts: Seq<Action>,
    sent: Set<Action>,
    cast: Set<Vote>,
    elected: Elections,
    term: u64,
    success: bool,
    follower: usize,
    match_index: usize,
)
    requires
        0 <= to < nodes.len(),
        nodes.len() <= usize::MAX,
        forall|i: int| 0 <= i < nodes.len() ==> #[trigger] nodes[i].id == i,
        nodes[to].wf(nodes.len() as int),
        b.wf(nodes.len() as int),
        election_safe(nodes, sent, cast, elected),
        append_response_outcome(nodes[to], b, acts, nodes.len() as int, to as usize, term, success, follower, match_index),
        follower != to,
    ensures
        election_safe(
            nodes.update(to, b),
            sent + acts.to_set(),
            next_cast(cast, nodes.update(to, b)),
            next_elected(elected, nodes.update(to, b)),
        ),
{
    let n = nodes.len() as int;
    let a = nodes[to];
    let nodes2 = nodes.update(to, b);
    let cast2 = next_cast(cast, nodes2);
    assert(tally_backed(a, to, n, cast));
    lemma_tally_grows(a, to, n, cast, cast2);
    if elected_in(elected, b.current_term, to as usize) {
        assert(elected.contains_key(b.current_term));
    }
    if b.role == Role::Leader {
        assert(elected_in(elected, a.current_term, to as usize));
    }
    if term > a.current_term {
    } else if a.role != Role::Leader || term != a.current_term {
    } else if success {
        if acts.len() > 0 {
            lemma_entries_from(acts.skip(1), b, to as usize, n, b, cast2);
            assert forall|k: int| 0 <= k < acts.len() implies message_from(#[trigger] acts[k], to as usize, b, n, cast2) by {
                if k >= 1 {
                    assert(acts[k] == acts.skip(1)[k - 1]);
                }
            }
        }
    } else {
        if acts.len() > 0 {
            assert forall|k: int| 0 <= k < acts.len() implies message_from(#[trigger] acts[k], to as usize, b, n, cast2) by {
                assert(k == 0);
                assert(is_append_entries(acts[0], b, to as usize, follower));
            }
        }
    }
    lemma_node_step(nodes, to, b, sent, acts, cast, elected);
}

/// The nodes of cluster `b` are those of cluster `a` with node `id`
/// replaced.
pub(crate) proof fn lemma_one_node_changed(a: Cluster, b: Cluster, id: int)
    requires
        0 <= id < a.nodes@.len(),
        b.nodes@.len() == a.nodes@.len(),
        forall|i: int| 0 <= i < a.nodes@.len() && i != id ==> #[trigger] b.nodes@[i] == a.nodes@[i],
    ensures
        b.nodes@ == a.nodes@.update(id, b.nodes@[id]),
{
    assert(b.nodes@ =~= a.nodes@.update(id, b.nodes@[id]));
}


/// Law (election safety, start): a new cluster of followers with no votes
/// satisfies the invariant, with nothing sent and empty records.
pub proof fn lemma_new_cluster_election_safe(c: Cluster)
    requires
        forall|i: int|
            0 <= i < c.nodes@.len() ==> {
                let nd = #[trigger] c.nodes@[i];
                &&& nd.role == Role::Follower
                &&& nd.voted_for is None
                &&& nd.votes_received@.len() == 0
            },
    ensures
        election_safe(c.nodes@, Set::empty(), Set::empty(), Map::empty()),
{
    assert forall|x: Vote| #[trigger] votes_now(c.nodes@).contains(x) implies false by {
        assert(c.nodes@[x.1 as int].voted_for is None);
    }
    assert(votes_now(c.nodes@) =~= Set::empty());
    assert forall|i: int| 0 <= i < c.nodes@.len() implies #[trigger] tally_backed(
        c.nodes@[i],
        i,
        c.nodes@.len() as int,
        Set::empty(),
    ) by {}
}

/// Law (election safety, delivery): delivering a message that was sent
/// keeps the invariant, with the messages it sends added to those sent and
/// the records moved on.
pub proof fn lemma_deliver_election_safe(
    a: Cluster,
    b: Cluster,
    acts: Seq<Action>,
    from: usize,
    to: usize,
    rpc: Rpc,
    sent: Set<Action>,
    cast: Set<Vote>,
    elected: Elections,
)
    requires
        a.wf(),
        election_safe(a.nodes@, sent, cast, elected),
        sent.contains(Action::Send { from, to, rpc }),
        delivered(a, b, acts, from, to, rpc),
    ensures
        election_safe(b.nodes@, sent + acts.to_set(), next_cast(cast, b.nodes@), next_elected(elected, b.nodes@)),
{
    let n = a.nodes@.len() as int;
    if to >= a.nodes@.len() || !a.nodes@[to as int].alive {
        assert(b.nodes@ == a.nodes@);
        assert((sent + acts.to_set()) =~= sent);
        lemma_records_unchanged(a.nodes@, sent, cast, elected);
    } else {
        let m = Action::Send { from, to, rpc };
        assert(message_backed(m, n, cast, elected));
        assert forall|i: int| 0 <= i < n implies #[trigger] a.nodes@[i].id == i by {}
        assert(a.nodes@[to as int].wf(n));
        lemma_one_node_changed(a, b, to as int);
        let nb = b.nodes@[to as int];
        assert(b.nodes@[to as int].wf(n));
        match rpc {
            Rpc::RequestVote { term, candidate_id, last_log_index, last_log_term } => {
                lemma_vote_request_step(
                    a.nodes@,
                    to as int,
                    nb,
                    acts,
                    sent,
                    cast,
                    elected,
                    from,
                    term,
                    candidate_id,
                    last_log_index,
                    last_log_term,
                );
            },
            Rpc::RequestVoteResponse { term, vote_granted, from: voter } => {
                lemma_vote_response_step(
                    a.nodes@,
                    to as int,
                    nb,
                    acts,
                    sent,
                    cast,
                    elected,
                    term,
                    vote_granted,
                    voter,
                );
            },
            Rpc::AppendEntries { term, leader_id, prev_log_index, prev_log_term, entries, leader_commit } => {
                lemma_append_entries_step(
                    a.nodes@,
                    to as int,
                    nb,
                    acts,
                    sent,
                    cast,
                    elected,
                    from,
                    term,
                    prev_log_index,
                    prev_log_term,
                    entries@,
                    leader_commit,
                );
            },
            Rpc::AppendEntriesResponse { term, success, from: follower, match_index } => {
                lemma_append_response_step(
                    a.nodes@,
                    to as int,
                    nb,
                    acts,
                    sent,
                    cast,
                    elected,
                    term,
                    success,
                    follower,
                    match_index,
                );
            },
        }
    }
}

/// Where the invariant holds, every leader is the recorded one of its
/// term, and the record of the next step keeps every recorded election.
pub(crate) proof fn lemma_leaders_recorded(nodes: Seq<Node>, sent: Set<Action>, cast: Set<Vote>, elected: Elections)
    requires
        election_safe(nodes, sent, cast, elected),
    ensures
        forall|i: usize|
            i < nodes.len() && #[trigger] nodes[i as int].role == Role::Leader ==> elected_in(
                elected,
                nodes[i as int].current_term,
                i,
            ),
{
}

/// Where the nodes do not change, moving the records on changes nothing.
pub(crate) proof fn lemma_records_unchanged(nodes: Seq<Node>, sent: Set<Action>, cast: Set<Vote>, elected: Elections)
    requires
        election_safe(nodes, sent, cast, elected),
    ensures
        next_cast(cast, nodes) == cast,
        next_elected(elected, nodes) == elected,
{
    assert(next_cast(cast, nodes) =~= cast);
    assert forall|t: u64| #[trigger] leaders_now(nodes).contains_key(t) implies elected.contains_key(t) by {
        let i = choose|i: usize|
            i < nodes.len() && #[trigger] nodes[i as int].role == Role::Leader && nodes[i as int].current_term == t;
        assert(elected_in(elected, nodes[i as int].current_term, i));
    }
    assert(next_elected(elected, nodes) =~= elected);
}

/// Law (election safety, elections): an election timeout keeps the
/// invariant, with the vote requests added to those sent and the records
/// moved on.
pub proof fn lemma_election_timeout_election_safe(
    a: Cluster,
    b: Cluster,
    acts: Seq<Action>,
    id: usize,
    sent: Set<Action>,
    cast: Set<Vote>,
    elected: Elections,
)
    requires
        a.wf(),
        election_safe(a.nodes@, sent, cast, elected),
        id < a.nodes@.len(),
        a.nodes@[id as int].current_term < u64::MAX,
        election_timed_out(a, b, acts, id),
    ensures
        election_safe(b.nodes@, sent + acts.to_set(), next_cast(cast, b.nodes@), next_elected(elected, b.nodes@)),
{
    let n = a.nodes@.len() as int;
    let na = a.nodes@[id as int];
    if !(na.alive && na.role != Role::Leader) {
        assert(b.nodes@ == a.nodes@);
        assert((sent + acts.to_set()) =~= sent);
        lemma_records_unchanged(a.nodes@, sent, cast, elected);
    } else {
        assert forall|i: int| 0 <= i < n implies #[trigger] a.nodes@[i].id == i by {}
        lemma_one_node_changed(a, b, id as int);
        let nb = b.nodes@[id as int];
        assert(nb.wf(n));
        let cast2 = next_cast(cast, b.nodes@);
        let t = (na.current_term + 1) as u64;
        assert(nb.current_term == t);
        assert(nb.voted_for == Some(id));
        assert(votes_now(b.nodes@).contains((t, id, id)));
        assert(nb.votes_received@ == seq![id]);
        assert(tally_backed(nb, id as int, n, cast2));
        if elected.contains_key(t) {
            assert(a.nodes@[elected[t].0 as int].current_term >= t);
        }
        if majority_of(n) == 1 {
            if elected.contains_key(t) {
                assert(elected[t].0 < n);
            }
            lemma_leader_actions_from(acts.skip(2), nb, id, n, cast2);
            assert forall|k: int| 0 <= k < acts.len() implies message_from(#[trigger] acts[k], id, nb, n, cast2) by {
                if k >= 2 {
                    assert(acts[k] == acts.skip(2)[k - 2]);
                }
            }
        } else {
            assert forall|k: int| 0 <= k < acts.len() implies message_from(#[trigger] acts[k], id, nb, n, cast2) by {
                if k >= 2 {
                    assert(is_vote_request(
                        acts[2 + (k - 2)],
                        id,
                        peer_of(k - 2, id as int),
                        t,
                        na.log@.len() as usize,
                        last_term(na.log@),
                    ));
                }
            }
        }
        lemma_node_step(a.nodes@, id as int, nb, sent, acts, cast, elected);
    }
}

/// Law (election safety, heartbeats): a heartbeat timeout changes no node
/// and sends only entries of the recorded leader, which keeps the
/// invariant.
pub proof fn lemma_heartbeat_election_safe(
    c: Cluster,
    acts: Seq<Action>,
    id: usize,
    sent: Set<Action>,
    cast: Set<Vote>,
    elected: Elections,
)
    requires
        c.wf(),
        election_safe(c.nodes@, sent, cast, elected),
        id < c.nodes@.len(),
        heartbeat_sent(c, acts, id),
    ensures
        election_safe(c.nodes@, sent + acts.to_set(), cast, elected),
{
    let n = c.nodes@.len() as int;
    let nd = c.nodes@[id as int];
    if nd.alive && nd.role == Role::Leader {
        lemma_entries_from(acts, nd, id, n, nd, cast);
        assert(elected_in(elected, nd.current_term, id));
    }
    assert forall|m: Action| #[trigger] (sent + acts.to_set()).contains(m) implies message_backed(m, n, cast, elected) by {
        if !sent.contains(m) {
            let k = choose|k: int| 0 <= k < acts.len() && acts[k] == m;
            assert(message_from(acts[k], id, nd, n, cast));
        }
    }
}

/// Where some node is an up leader, a first such node exists.
proof fn lemma_first_leader(c: Cluster, i: int)
    requires
        0 <= i < c.nodes@.len(),
        c.nodes@[i].alive && c.nodes@[i].role == Role::Leader,
    ensures
        exists|k: int|
            0 <= k < c.nodes@.len() && #[trigger] c.nodes@[k].alive && c.nodes@[k].role == Role::Leader && forall|j: int|
                0 <= j < k ==> !(#[trigger] c.nodes@[j].alive && c.nodes@[j].role == Role::Leader),
    decreases i,
{
    if exists|j: int| 0 <= j < i && #[trigger] c.nodes@[j].alive && c.nodes@[j].role == Role::Leader {
        let j = choose|j: int| 0 <= j < i && #[trigger] c.nodes@[j].alive && c.nodes@[j].role == Role::Leader;
        lemma_first_leader(c, j);
    }
}

/// The leader that `leader_id_spec` names is an up leader of the cluster.
pub(crate) proof fn lemma_leader_in_cluster(c: Cluster)
    requires
        c.nodes@.len() <= usize::MAX,
    ensures
        c.leader_id_spec() matches Some(l) ==> l < c.nodes@.len() && c.nodes@[l as int].role == Role::Leader,
{
    if exists|i: int| 0 <= i < c.nodes@.len() && #[trigger] c.nodes@[i].alive && c.nodes@[i].role == Role::Leader {
        let i0 = choose|i: int| 0 <= i < c.nodes@.len() && #[trigger] c.nodes@[i].alive && c.nodes@[i].role == Role::Leader;
        lemma_first_leader(c, i0);
        let i = choose|i: int|
            0 <= i < c.nodes@.len() && #[trigger] c.nodes@[i].alive && c.nodes@[i].role == Role::Leader && forall|j: int|
                0 <= j < i ==> !(#[trigger] c.nodes@[j].alive && c.nodes@[j].role == Role::Leader);
        assert(c.leader_id_spec() == Some(i as usize));
    }
}

/// What a client command does: without a leader it changes nothing and
/// notes the refusal; when `leader_id_spec` names leader `l`, only its log
/// and replication state change, and it notes the command and sends its
/// entries to all.
pub(crate) proof fn lemma_client_command_facts(a: Cluster, b: Cluster, acts: Seq<Action>)
    requires
        a.wf(),
        client_command_handled(a, b, acts),
    ensures
        a.leader_id_spec() is None ==> b == a && acts.len() == 1 && acts[0] is Note,
        a.leader_id_spec() matches Some(l) ==> {
            &&& l < a.nodes@.len()
            &&& a.nodes@[l as int].role == Role::Leader
            &&& b.nodes@ == a.nodes@.update(l as int, b.nodes@[l as int])
            &&& b.nodes@[l as int] == (Node {
                log: b.nodes@[l as int].log,
                match_index: b.nodes@[l as int].match_index,
                next_index: b.nodes@[l as int].next_index,
                ..a.nodes@[l as int]
            })
            &&& b.nodes@[l as int].log@.len() == a.nodes@[l as int].log@.len() + 1
            &&& b.nodes@[l as int].log@.drop_last() == a.nodes@[l as int].log@
            &&& b.nodes@[l as int].log@.last().term == a.nodes@[l as int].current_term
            &&& b.wf()
            &&& acts.len() >= 1
            &&& acts[0] is Note
            &&& sends_entries_to_all(acts.skip(1), b.nodes@[l as int], l, a.nodes@.len() as int)
        },
{
    reveal(client_command_handled);
    lemma_leader_in_cluster(a);
    if let Some(l) = a.leader_id_spec() {
        lemma_one_node_changed(a, b, l as int);
    }
}

/// Law (election safety, client commands): a client command changes only
/// the leader's log and replication state and sends only its entries,
/// which keeps the invariant.
pub proof fn lemma_client_command_election_safe(
    a: Cluster,
    b: Cluster,
    acts: Seq<Action>,
    sent: Set<Action>,
    cast: Set<Vote>,
    elected: Elections,
)
    requires
        a.wf(),
        election_safe(a.nodes@, sent, cast, elected),
        client_command_handled(a, b, acts),
    ensures
        election_safe(b.nodes@, sent + acts.to_set(), next_cast(cast, b.nodes@), next_elected(elected, b.nodes@)),
{
    let n = a.nodes@.len() as int;
    lemma_client_command_facts(a, b, acts);
    match a.leader_id_spec() {
        None => {
            assert(b.nodes@ == a.nodes@);
            lemma_records_unchanged(a.nodes@, sent, cast, elected);
            assert forall|m: Action| #[trigger] (sent + acts.to_set()).contains(m) implies message_backed(
                m,
                n,
                cast,
                elected,
            ) by {
                if !sent.contains(m) {
                    let k = choose|k: int| 0 <= k < acts.len() && acts[k] == m;
                    assert(k == 0);
                }
            }
        },
        Some(l) => {
            lemma_leader_keeps_election(a.nodes@, l, b.nodes@[l as int], sent, acts, cast, elected);
        },
    }
}

/// A leader that changes only its log and replication state, and sends
/// only its entries, keeps the invariant.
proof fn lemma_leader_keeps_election(
    nodes: Seq<Node>,
    l: usize,
    nb: Node,
    sent: Set<Action>,
    acts: Seq<Action>,
    cast: Set<Vote>,
    elected: Elections,
)
    requires
        l < nodes.len() <= usize::MAX,
        forall|i: int| 0 <= i < nodes.len() ==> #[trigger] nodes[i].id == i,
        election_safe(nodes, sent, cast, elected),
        nodes[l as int].role == Role::Leader,
        nb == (Node { log: nb.log, match_index: nb.match_index, next_index: nb.next_index, ..nodes[l as int] }),
        nb.wf(nodes.len() as int),
        acts.len() >= 1,
        acts[0] is Note,
        sends_entries_to_all(acts.skip(1), nb, l, nodes.len() as int),
    ensures
        election_safe(
            nodes.update(l as int, nb),
            sent + acts.to_set(),
            next_cast(cast, nodes.update(l as int, nb)),
            next_elected(elected, nodes.update(l as int, nb)),
        ),
{
    let n = nodes.len() as int;
    let na = nodes[l as int];
    let cast2 = next_cast(cast, nodes.update(l as int, nb));
    assert(tally_backed(na, l as int, n, cast));
    lemma_tally_grows(na, l as int, n, cast, cast2);
    assert(elected_in(elected, na.current_term, l));
    lemma_entries_from(acts.skip(1), nb, l, n, nb, cast2);
    assert forall|k: int| 0 <= k < acts.len() implies message_from(#[trigger] acts[k], l, nb, n, cast2) by {
        if k >= 1 {
            assert(acts[k] == acts.skip(1)[k - 1]);
        }
    }
    lemma_node_step(nodes, l as int, nb, sent, acts, cast, elected);
}

/// Law (election safety, applying entries): applying committed entries
/// changes only a state machine, which keeps the invariant.
pub proof fn lemma_apply_election_safe(
    a: Cluster,
    b: Cluster,
    id: usize,
    sent: Set<Action>,
    cast: Set<Vote>,
    elected: Elections,
)
    requires
        a.wf(),
        election_safe(a.nodes@, sent, cast, elected),
        id < a.nodes@.len(),
        entries_applied(a, b, id),
    ensures
        election_safe(b.nodes@, sent, next_cast(cast, b.nodes@), next_elected(elected, b.nodes@)),
{
    let n = a.nodes@.len() as int;
    assert forall|i: int| 0 <= i < n implies #[trigger] a.nodes@[i].id == i by {}
    lemma_one_node_changed(a, b, id as int);
    let na = a.nodes@[id as int];
    let nb = b.nodes@[id as int];
    assert(nb.wf(n));
    let cast2 = next_cast(cast, b.nodes@);
    let acts = Seq::<Action>::empty();
    assert(tally_backed(na, id as int, n, cast));
    lemma_tally_grows(na, id as int, n, cast, cast2);
    if elected_in(elected, nb.current_term, id) {
        assert(elected.contains_key(nb.current_term));
    }
    if nb.role == Role::Leader {
        assert(elected_in(elected, na.current_term, id));
    }
    lemma_node_step(a.nodes@, id as int, nb, sent, acts, cast, elected);
    assert((sent + acts.to_set()) =~= sent);
}

/// Law (election safety, crashes and restarts): crashing a node, or
/// restarting one that holds no vote, or only its own vote in a term it
/// did not win, keeps the invariant.  A restart forgets the node's vote,
/// so restarting a node that voted for another node, or that won its
/// current term, would let it vote again in that term: those restarts are
/// left out.
pub proof fn lemma_toggle_election_safe(
    a: Cluster,
    b: Cluster,
    acts: Seq<Action>,
    id: usize,
    sent: Set<Action>,
    cast: Set<Vote>,
    elected: Elections,
)
    requires
        a.wf(),
        election_safe(a.nodes@, sent, cast, elected),
        toggled(a, b, acts, id),
        id < a.nodes@.len() && !a.nodes@[id as int].alive ==> a.nodes@[id as int].voted_for is None || (
        a.nodes@[id as int].voted_for == Some(id) && !elected_in(elected, a.nodes@[id as int].current_term, id)),
    ensures
        election_safe(b.nodes@, sent + acts.to_set(), next_cast(cast, b.nodes@), next_elected(elected, b.nodes@)),
{
    let n = a.nodes@.len() as int;
    if id >= a.nodes@.len() {
        assert(b.nodes@ == a.nodes@);
        assert((sent + acts.to_set()) =~= sent);
        lemma_records_unchanged(a.nodes@, sent, cast, elected);
    } else {
        assert forall|i: int| 0 <= i < n implies #[trigger] a.nodes@[i].id == i by {}
        lemma_one_node_changed(a, b, id as int);
        let na = a.nodes@[id as int];
        let nb = b.nodes@[id as int];
        assert(nb.wf(n));
        if elected_in(elected, nb.current_term, id) {
            assert(elected.contains_key(nb.current_term));
        }
        lemma_node_step(a.nodes@, id as int, nb, sent, acts, cast, elected);
    }
}

/// One operation of a driver on cluster `a`, with the messages `sent` so
/// far, giving cluster `b` and the messages `sent2`: the delivery of a sent
/// message, an election timeout, a heartbeat, a client command or applying
/// committed entries, with the messages it sends added.
pub open spec fn step_by(
    a: Cluster,
    sent: Set<Action>,
    b: Cluster,
    sent2: Set<Action>,
    acts: Seq<Action>,
    from: usize,
    to: usize,
    rpc: Rpc,
    id: usize,
) -> bool {
    ||| sent.contains(Action::Send { from, to, rpc }) && delivered(a, b, acts, from, to, rpc) && sent2 == sent + acts.to_set()
    ||| id < a.nodes@.len() && a.nodes@[id as int].current_term < u64::MAX && election_timed_out(a, b, acts, id) && sent2
        == sent + acts.to_set()
    ||| id < a.nodes@.len() && heartbeat_sent(a, acts, id) && b == a && sent2 == sent + acts.to_set()
    ||| client_command_handled(a, b, acts) && sent2 == sent + acts.to_set()
    ||| id < a.nodes@.len() && entries_applied(a, b, id) && sent2 == sent
}

/// Some operation of a driver leads from `a` with `sent` to `b` with
/// `sent2`.
pub open spec fn driver_step(a: Cluster, sent: Set<Action>, b: Cluster, sent2: Set<Action>) -> bool {
    exists|acts: Seq<Action>, from: usize, to: usize, rpc: Rpc, id: usize|
        #[trigger] step_by(a, sent, b, sent2, acts, from, to, rpc, id)
}

/// `run` is a run of a driver: it starts from followers that have cast no
/// vote with nothing sent, and each cluster after the first follows from
/// the one before by one operation.
pub open spec fn driver_run(run: Seq<(Cluster, Set<Action>)>) -> bool {
    &&& run.len() >= 1
    &&& run[0].1 == Set::<Action>::empty()
    &&& forall|i: int|
        0 <= i < run[0].0.nodes@.len() ==> {
            let nd = #[trigger] run[0].0.nodes@[i];
            &&& nd.role == Role::Follower
            &&& nd.voted_for is None
            &&& nd.votes_received@.len() == 0
        }
    &&& forall|k: int| 0 <= k < run.len() ==> (#[trigger] run[k]).0.wf()
    &&& forall|k: int| 0 <= k < run.len() - 1 ==> #[trigger] driver_step(run[k].0, run[k].1, run[k + 1].0, run[k + 1].1)
}

proof fn lemma_driver_run_safe(run: Seq<(Cluster, Set<Action>)>, k: int) -> (records: (Set<Vote>, Elections))
    requires
        driver_run(run),
        0 <= k < run.len(),
    ensures
        election_safe(run[k].0.nodes@, run[k].1, records.0, records.1),
    decreases k,
{
    if k == 0 {
        lemma_new_cluster_election_safe(run[0].0);
        (Set::empty(), Map::empty())
    } else {
        let (cast, elected) = lemma_driver_run_safe(run, k - 1);
        let a = run[k - 1].0;
        let sent = run[k - 1].1;
        let b = run[k].0;
        let sent2 = run[k].1;
        let km = k - 1;
        assert(run[km].0.wf());
        assert(driver_step(run[km].0, run[km].1, run[km + 1].0, run[km + 1].1));
        assert(km + 1 == k);
        let (acts, from, to, rpc, id) = choose|acts: Seq<Action>, from: usize, to: usize, rpc: Rpc, id: usize|
            #[trigger] step_by(a, sent, b, sent2, acts, from, to, rpc, id);
        if sent.contains(Action::Send { from, to, rpc }) && delivered(a, b, acts, from, to, rpc) && sent2 == sent + acts.to_set() {
            lemma_deliver_election_safe(a, b, acts, from, to, rpc, sent, cast, elected);
            (next_cast(cast, b.nodes@), next_elected(elected, b.nodes@))
        } else if id < a.nodes@.len() && a.nodes@[id as int].current_term < u64::MAX && election_timed_out(a, b, acts, id) && sent2
            == sent + acts.to_set() {
            lemma_election_timeout_election_safe(a, b, acts, id, sent, cast, elected);
            (next_cast(cast, b.nodes@), next_elected(elected, b.nodes@))
        } else if id < a.nodes@.len() && heartbeat_sent(a, acts, id) && b == a && sent2 == sent + acts.to_set() {
            lemma_heartbeat_election_safe(a, acts, id, sent, cast, elected);
            (cast, elected)
        } else if client_command_handled(a, b, acts) && sent2 == sent + acts.to_set() {
            lemma_client_command_election_safe(a, b, acts, sent, cast, elected);
            (next_cast(cast, b.nodes@), next_elected(elected, b.nodes@))
        } else {
            lemma_apply_election_safe(a, b, id, sent, cast, elected);
            (next_cast(cast, b.nodes@), next_elected(elected, b.nodes@))
        }
    }
}

/// Law (election safety over a run): in every cluster that a run of a
/// driver reaches from fresh followers, by deliveries, timeouts,
/// heartbeats, client commands and applying entries, two leaders of the
/// same term are the same node.
pub proof fn lemma_driver_one_leader_per_term(run: Seq<(Cluster, Set<Action>)>, k: int, i: usize, j: usize)
    requires
        driver_run(run),
        0 <= k < run.len(),
        i < run[k].0.nodes@.len(),
        j < run[k].0.nodes@.len(),
        run[k].0.nodes@[i as int].role == Role::Leader,
        run[k].0.nodes@[j as int].role == Role::Leader,
        run[k].0.nodes@[i as int].current_term == run[k].0.nodes@[j as int].current_term,
    ensures
        i == j,
{
    let (cast, elected) = lemma_driver_run_safe(run, k);
    lemma_one_leader_per_term(run[k].0, run[k].1, cast, elected, i, j);
}

} // verus!
