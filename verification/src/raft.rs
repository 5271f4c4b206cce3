//! The decision logic of a Raft cluster simulation: leader election, log
//! replication, commitment and application to a small key/value state
//! machine.  Every handler takes the cluster state and an event and returns
//! the actions that the driver performs in order: messages to send (the
//! driver decides on delays and losses), timers to restart and notes for
//! the event log.

use crate::text::{chars_of, decimal, decimal_chars, digit_char, string_from_chars};
use vstd::prelude::*;

verus! {

/// The role of a node.
#[derive(Clone, Copy, Debug, PartialEq, Eq, Structural)]
pub enum Role {
    Follower,
    Candidate,
    Leader,
}

impl Role {
    pub fn label(self) -> (s: &'static str)
        ensures
            self == Role::Follower ==> s@ == "Follower"@,
            self == Role::Candidate ==> s@ == "Candidate"@,
            self == Role::Leader ==> s@ == "Leader"@,
    {
        match self {
            Role::Follower => "Follower",
            Role::Candidate => "Candidate",
            Role::Leader => "Leader",
        }
    }
}

/// An entry of the replicated log: the term of the leader that created it
/// and a command for the state machine.
#[derive(Debug)]
pub struct LogEntry {
    pub term: u64,
    pub command: String,
}

impl LogEntry {
    pub fn duplicate(&self) -> (e: LogEntry)
        ensures
            e == *self,
    {
        LogEntry { term: self.term, command: self.command.clone() }
    }
}

/// The messages of the protocol.
#[derive(Debug)]
pub enum Rpc {
    RequestVote { term: u64, candidate_id: usize, last_log_index: usize, last_log_term: u64 },
    RequestVoteResponse { term: u64, vote_granted: bool, from: usize },
    AppendEntries {
        term: u64,
        leader_id: usize,
        prev_log_index: usize,
        prev_log_term: u64,
        entries: Vec<LogEntry>,
        leader_commit: usize,
    },
    AppendEntriesResponse { term: u64, success: bool, from: usize, match_index: usize },
}

impl Rpc {
    /// A short label for drawing the message.
    pub fn short_label(&self) -> (s: &'static str)
        ensures
            self is RequestVote ==> s@ == "Vote?"@,
            self matches Rpc::RequestVoteResponse { vote_granted, .. } ==> s@ == (if *vote_granted {
                "Yes"@
            } else {
                "No"@
            }),
            self matches Rpc::AppendEntries { entries, .. } ==> s@ == (if entries@.len() == 0 {
                "Beat"@
            } else {
                "Append"@
            }),
            self matches Rpc::AppendEntriesResponse { success, .. } ==> s@ == (if *success {
                "Ack"@
            } else {
                "Reject"@
            }),
    {
        match self {
            Rpc::RequestVote { .. } => "Vote?",
            Rpc::RequestVoteResponse { vote_granted, .. } => {
                if *vote_granted {
                    "Yes"
                } else {
                    "No"
                }
            },
            Rpc::AppendEntries { entries, .. } => {
                if entries.len() == 0 {
                    "Beat"
                } else {
                    "Append"
                }
            },
            Rpc::AppendEntriesResponse { success, .. } => {
                if *success {
                    "Ack"
                } else {
                    "Reject"
                }
            },
        }
    }
}

/// White space as `char::is_whitespace` documents it: the characters with
/// the Unicode `White_Space` property.
pub open spec fn is_white_space(c: char) -> bool {
    let u = c as u32;
    ||| 0x9 <= u <= 0xd
    ||| u == 0x20
    ||| u == 0x85
    ||| u == 0xa0
    ||| u == 0x1680
    ||| 0x2000 <= u <= 0x200a
    ||| u == 0x2028
    ||| u == 0x2029
    ||| u == 0x202f
    ||| u == 0x205f
    ||| u == 0x3000
}

/// The word `current` (none when empty) followed by the words of `rest`:
/// the maximal runs of characters that are not white space.
pub open spec fn words_after(current: Seq<char>, rest: Seq<char>) -> Seq<Seq<char>>
    decreases rest.len(),
{
    if rest.len() == 0 {
        if current.len() == 0 {
            seq![]
        } else {
            seq![current]
        }
    } else if is_white_space(rest[0]) {
        (if current.len() == 0 {
            seq![]
        } else {
            seq![current]
        }) + words_after(seq![], rest.drop_first())
    } else {
        words_after(current.push(rest[0]), rest.drop_first())
    }
}

/// The words of `s`: its maximal runs of characters that are not white
/// space, in order, as `str::split_whitespace` gives them.
pub open spec fn whitespace_words(s: Seq<char>) -> Seq<Seq<char>> {
    words_after(seq![], s)
}

/// The value of the decimal digits `d`.
pub open spec fn decimal_value(d: Seq<char>) -> int
    decreases d.len(),
{
    if d.len() == 0 {
        0
    } else {
        decimal_value(d.drop_last()) * 10 + ((d.last() as u32) - ('0' as u32))
    }
}

/// `d` is one or more ASCII decimal digits.
pub open spec fn is_decimal(d: Seq<char>) -> bool {
    d.len() > 0 && forall|i: int| 0 <= i < d.len() ==> '0' <= #[trigger] d[i] <= '9'
}

/// The value of `s` read as an `i64` as `str::parse::<i64>` reads it: an
/// optional `+` or `-`, then one or more decimal digits, with the value in
/// the range of `i64`; `None` for anything else.
pub open spec fn parsed_i64(s: Seq<char>) -> Option<i64> {
    let signed = s.len() > 0 && (s[0] == '-' || s[0] == '+');
    let digits = if signed {
        s.drop_first()
    } else {
        s
    };
    let value = if s.len() > 0 && s[0] == '-' {
        -decimal_value(digits)
    } else {
        decimal_value(digits)
    };
    if is_decimal(digits) && i64::MIN <= value <= i64::MAX {
        Some(value as i64)
    } else {
        None
    }
}

/// Whether `c` is white space, as `char::is_whitespace` has it.
fn white_space(c: char) -> (r: bool)
    ensures
        r == is_white_space(c),
{
    let u = c as u32;
    (0x9 <= u && u <= 0xd) || u == 0x20 || u == 0x85 || u == 0xa0 || u == 0x1680 || (0x2000 <= u && u <= 0x200a) || u == 0x2028
        || u == 0x2029 || u == 0x202f || u == 0x205f || u == 0x3000
}

/// Splits `s` into its words, as `str::split_whitespace` does: the maximal
/// runs of characters that are not white space, in order.
fn split_words(s: &str) -> (words: Vec<String>)
    ensures
        words@.len() == whitespace_words(s@).len(),
        forall|i: int| 0 <= i < words@.len() ==> #[trigger] words@[i]@ == whitespace_words(s@)[i],
{
    let cs = chars_of(s);
    let n = cs.len();
    let mut words: Vec<String> = Vec::new();
    let mut current: Vec<char> = Vec::new();
    let mut i: usize = 0;
    proof {
        assert(cs@.subrange(0, n as int) =~= s@);
        assert(words_of(words@) =~= Seq::<Seq<char>>::empty());
        assert(words_of(words@) + whitespace_words(s@) =~= whitespace_words(s@));
    }
    while i < n
        invariant
            n == cs@.len(),
            cs@ == s@,
            i <= n,
            words_of(words@) + words_after(current@, cs@.subrange(i as int, n as int)) == whitespace_words(s@),
        decreases n - i,
    {
        let c = cs[i];
        let ghost rest = cs@.subrange(i as int, n as int);
        let ghost ws = words_of(words@);
        let ghost cur = current@;
        proof {
            assert(rest[0] == c);
            assert(rest.drop_first() =~= cs@.subrange(i + 1, n as int));
        }
        if white_space(c) {
            if current.len() > 0 {
                let w = string_from_chars(&current);
                words.push(w);
                proof {
                    assert(words_of(words@) =~= ws.push(cur));
                    assert(ws + (seq![cur] + words_after(seq![], rest.drop_first())) =~= ws.push(cur) + words_after(
                        seq![],
                        rest.drop_first(),
                    ));
                }
            } else {
                proof {
                    assert(cur.len() == 0);
                    assert(Seq::<Seq<char>>::empty() + words_after(seq![], rest.drop_first()) =~= words_after(seq![], rest.drop_first()));
                }
            }
            current = Vec::new();
            proof {
                assert(current@ =~= Seq::<char>::empty());
            }
        } else {
            current.push(c);
        }
        i += 1;
    }
    proof {
        assert(cs@.subrange(i as int, n as int) =~= Seq::<char>::empty());
    }
    if current.len() > 0 {
        let ghost ws = words_of(words@);
        let ghost cur = current@;
        let w = string_from_chars(&current);
        words.push(w);
        proof {
            assert(words_of(words@) =~= ws.push(cur));
            assert(ws + seq![cur] =~= ws.push(cur));
        }
    } else {
        proof {
            assert(words_of(words@) + Seq::<Seq<char>>::empty() =~= words_of(words@));
        }
    }
    proof {
        assert(words_of(words@) == whitespace_words(s@));
        assert forall|i: int| 0 <= i < words@.len() implies #[trigger] words@[i]@ == whitespace_words(s@)[i] by {
            assert(words_of(words@)[i] == words@[i]@);
        }
    }
    words
}

proof fn lemma_decimal_grows(d: Seq<char>, j: int, k: int)
    requires
        0 <= j <= k <= d.len(),
        forall|i: int| 0 <= i < d.len() ==> '0' <= #[trigger] d[i] <= '9',
    ensures
        0 <= decimal_value(d.subrange(0, j)) <= decimal_value(d.subrange(0, k)),
    decreases k - j,
{
    if j < k {
        lemma_decimal_grows(d, j, k - 1);
        assert(d.subrange(0, k).drop_last() =~= d.subrange(0, k - 1));
        assert(d.subrange(0, k).last() == d[k - 1]);
    } else {
        lemma_decimal_nonneg(d.subrange(0, j));
    }
}

proof fn lemma_decimal_nonneg(d: Seq<char>)
    requires
        forall|i: int| 0 <= i < d.len() ==> '0' <= #[trigger] d[i] <= '9',
    ensures
        decimal_value(d) >= 0,
    decreases d.len(),
{
    if d.len() > 0 {
        lemma_decimal_nonneg(d.drop_last());
    }
}

/// Reads `s` as a decimal `i64`, as `str::parse::<i64>` does: an optional
/// sign, then one or more decimal digits whose value fits.
fn parse_i64(s: &str) -> (r: Option<i64>)
    ensures
        r == parsed_i64(s@),
{
    let cs = chars_of(s);
    let n = cs.len();
    if n == 0 {
        return None;
    }
    let negative = cs[0] == '-';
    let start: usize = if cs[0] == '-' || cs[0] == '+' {
        1
    } else {
        0
    };
    let ghost digits = cs@.subrange(start as int, n as int);
    proof {
        if start == 1 {
            assert(digits =~= s@.drop_first());
        } else {
            assert(digits =~= s@);
        }
    }
    proof {
        assert(digits == (if s@.len() > 0 && (s@[0] == '-' || s@[0] == '+') {
            s@.drop_first()
        } else {
            s@
        }));
    }
    if start == n {
        proof {
            assert(digits.len() == 0);
            assert(!is_decimal(digits));
            assert(parsed_i64(s@) is None);
        }
        return None;
    }
    let mut value: i128 = 0;
    let mut i: usize = start;
    while i < n
        invariant
            cs@ == s@,
            n == cs@.len(),
            start <= i <= n,
            start < n,
            digits == cs@.subrange(start as int, n as int),
            digits == (if s@.len() > 0 && (s@[0] == '-' || s@[0] == '+') {
                s@.drop_first()
            } else {
                s@
            }),
            negative == (s@[0] == '-'),
            forall|j: int| start <= j < i ==> '0' <= #[trigger] cs@[j] <= '9',
            value == decimal_value(cs@.subrange(start as int, i as int)),
            0 <= value <= 9223372036854775808,
        decreases n - i,
    {
        let c = cs[i];
        if !('0' <= c && c <= '9') {
            proof {
                assert(digits[i - start] == c);
                assert(!is_decimal(digits));
                assert(parsed_i64(s@) is None);
            }
            return None;
        }
        let d = ((c as u32) - ('0' as u32)) as i128;
        let ghost before = cs@.subrange(start as int, i as int);
        proof {
            assert(cs@.subrange(start as int, i + 1).drop_last() =~= before);
            assert(cs@.subrange(start as int, i + 1).last() == c);
        }
        value = value * 10 + d;
        i += 1;
        if value > 9223372036854775808 {
            proof {
                assert forall|j: int| 0 <= j < digits.len() && is_decimal(digits) implies '0' <= #[trigger] digits[j] <= '9' by {}
                if is_decimal(digits) {
                    lemma_decimal_grows(digits, i - start, digits.len() as int);
                    assert(digits.subrange(0, i - start) =~= cs@.subrange(start as int, i as int));
                    assert(digits.subrange(0, digits.len() as int) =~= digits);
                }
            }
            return None;
        }
    }
    proof {
        assert(cs@.subrange(start as int, i as int) =~= digits);
        assert forall|j: int| 0 <= j < digits.len() implies '0' <= #[trigger] digits[j] <= '9' by {
            assert(digits[j] == cs@[start + j]);
        }
    }
    let signed: i128 = if negative {
        -value
    } else {
        value
    };
    if signed < -9223372036854775808 || signed > 9223372036854775807 {
        None
    } else {
        Some(signed as i64)
    }
}

/// A key/value state machine of `i64` counters.
#[derive(Debug)]
pub struct StateMachine {
    pub entries: Vec<(String, i64)>,
}

/// The counters, each key once.
pub open spec fn counters(entries: Seq<(String, i64)>) -> Map<Seq<char>, i64>
    decreases entries.len(),
{
    if entries.len() == 0 {
        Map::empty()
    } else {
        counters(entries.drop_last()).insert(entries.last().0@, entries.last().1)
    }
}

/// The keys are distinct.
pub open spec fn keys_distinct(entries: Seq<(String, i64)>) -> bool {
    forall|i: int, j: int| 0 <= i < j < entries.len() ==> entries[i].0@ != entries[j].0@
}

/// The state after applying the command `cmd`: for `KEY += VALUE`, with
/// `VALUE` an `i64`, the counter `KEY` (zero when absent) grows by `VALUE`
/// (wrapping); any other command changes nothing.
pub open spec fn apply_spec(state: Map<Seq<char>, i64>, cmd: Seq<char>) -> Map<Seq<char>, i64> {
    let words = whitespace_words(cmd);
    apply_words(
        state,
        words,
        if words.len() == 3 {
            parsed_i64(words[2])
        } else {
            None
        },
    )
}

/// The texts of `parts`.
pub open spec fn words_of(parts: Seq<String>) -> Seq<Seq<char>> {
    parts.map_values(|w: String| w@)
}

/// The state after applying a command split into `words`, with `delta` the
/// value read from its third word: for `KEY += VALUE` with a value, the
/// counter `KEY` (zero when absent) grows by it (wrapping); anything else
/// changes nothing.
pub open spec fn apply_words(state: Map<Seq<char>, i64>, words: Seq<Seq<char>>, delta: Option<i64>) -> Map<
    Seq<char>,
    i64,
> {
    if words.len() == 3 && words[1] == "+="@ && delta is Some {
        let old_value = if state.contains_key(words[0]) {
            state[words[0]]
        } else {
            0
        };
        state.insert(words[0], vstd::wrapping::i64_specs::wrapping_add(old_value, delta->0))
    } else {
        state
    }
}

impl View for StateMachine {
    type V = Map<Seq<char>, i64>;

    /// The counters by key.
    open spec fn view(&self) -> Map<Seq<char>, i64> {
        counters(self.entries@)
    }
}

impl StateMachine {

    pub open spec fn wf(&self) -> bool {
        keys_distinct(self.entries@)
    }

    pub fn new() -> (s: StateMachine)
        ensures
            s.wf(),
            s.view() == Map::<Seq<char>, i64>::empty(),
    {
        StateMachine { entries: Vec::new() }
    }

    /// The counter `key`, if it was ever set.
    pub fn get(&self, key: &str) -> (r: Option<i64>)
        requires
            self.wf(),
        ensures
            r == (if self.view().contains_key(key@) {
                Some(self.view()[key@])
            } else {
                None
            }),
    {
        let wanted = String::from_str(key);
        let mut i: usize = 0;
        while i < self.entries.len()
            invariant
                self.wf(),
                wanted@ == key@,
                i <= self.entries@.len(),
                forall|j: int| 0 <= j < i ==> self.entries@[j].0@ != key@,
            decreases self.entries@.len() - i,
        {
            if self.entries[i].0 == wanted {
                proof {
                    lemma_counters_at(self.entries@, i as int);
                }
                return Some(self.entries[i].1);
            }
            i += 1;
        }
        proof {
            lemma_counters_absent(self.entries@, key@);
        }
        None
    }
}

proof fn lemma_counters_at(entries: Seq<(String, i64)>, i: int)
    requires
        keys_distinct(entries),
        0 <= i < entries.len(),
    ensures
        counters(entries).contains_key(entries[i].0@),
        counters(entries)[entries[i].0@] == entries[i].1,
    decreases entries.len(),
{
    if i < entries.len() - 1 {
        lemma_counters_at(entries.drop_last(), i);
    }
}

proof fn lemma_counters_absent(entries: Seq<(String, i64)>, k: Seq<char>)
    requires
        forall|j: int| 0 <= j < entries.len() ==> entries[j].0@ != k,
    ensures
        !counters(entries).contains_key(k),
    decreases entries.len(),
{
    if entries.len() > 0 {
        lemma_counters_absent(entries.drop_last(), k);
    }
}

proof fn lemma_counters_update(entries: Seq<(String, i64)>, i: int, v: i64)
    requires
        keys_distinct(entries),
        0 <= i < entries.len(),
    ensures
        keys_distinct(entries.update(i, (entries[i].0, v))),
        counters(entries.update(i, (entries[i].0, v))) == counters(entries).insert(entries[i].0@, v),
    decreases entries.len(),
{
    let e2 = entries.update(i, (entries[i].0, v));
    if i < entries.len() - 1 {
        lemma_counters_update(entries.drop_last(), i, v);
        assert(e2.drop_last() == entries.drop_last().update(i, (entries[i].0, v)));
        lemma_counters_absent(entries.drop_last(), entries.last().0@);
        assert(counters(e2) =~= counters(entries).insert(entries[i].0@, v));
    } else {
        assert(e2.drop_last() == entries.drop_last());
        assert(counters(e2) =~= counters(entries).insert(entries[i].0@, v));
    }
}

/// Applies a `KEY += VALUE` command to the state machine; other commands
/// are ignored.
pub fn apply_command(state: &mut StateMachine, command: &str)
    requires
        old(state).wf(),
    ensures
        final(state).wf(),
        final(state).view() == apply_spec(old(state).view(), command@),
{
    let parts = split_words(command);
    let delta = if parts.len() == 3 {
        parse_i64(parts[2].as_str())
    } else {
        None
    };
    proof {
        assert(words_of(parts@) =~= whitespace_words(command@));
    }
    apply_parts(state, &parts, delta);
}

/// Applies a command split into the words `parts`, with `delta` the value
/// read from its third word: for `KEY += VALUE` with a value, the counter
/// `KEY` grows by it; anything else changes nothing.
pub fn apply_parts(state: &mut StateMachine, parts: &Vec<String>, delta: Option<i64>)
    requires
        old(state).wf(),
    ensures
        final(state).wf(),
        final(state).view() == apply_words(old(state).view(), words_of(parts@), delta),
{
    let ghost words = words_of(parts@);
    if parts.len() == 3 {
        assert(parts@[0]@ == words[0]);
        assert(parts@[1]@ == words[1]);
        let plus_eq = String::from_str("+=");
        if parts[1] == plus_eq {
            match delta {
                Some(d) => {
                    let key = &parts[0];
                    let ghost old_entries = state.entries@;
                    let mut i: usize = 0;
                    while i < state.entries.len()
                        invariant
                            state.entries@ == old_entries,
                            keys_distinct(old_entries),
                            key@ == words[0],
                            words == words_of(parts@),
                            delta == Some(d),
                            words.len() == 3,
                            words[1] == "+="@,
                            old_entries == old(state).entries@,
                            i <= old_entries.len(),
                            forall|j: int| 0 <= j < i ==> old_entries[j].0@ != key@,
                        decreases old_entries.len() - i,
                    {
                        if state.entries[i].0 == *key {
                            let k = state.entries[i].0.clone();
                            let v = state.entries[i].1.wrapping_add(d);
                            proof {
                                lemma_counters_at(old_entries, i as int);
                                lemma_counters_update(old_entries, i as int, v);
                            }
                            state.entries.set(i, (k, v));
                            proof {
                                assert(state.entries@ == old_entries.update(i as int, (old_entries[i as int].0, v)));
                                assert(old_entries[i as int].0@ == words[0]);
                                assert(counters(old_entries)[words[0]] == old_entries[i as int].1);
                                assert(v == vstd::wrapping::i64_specs::wrapping_add(old_entries[i as int].1, d));
                                assert(words == words_of(parts@));
                                assert(counters(old_entries).contains_key(words[0]));
                                assert(state.view() == counters(old_entries).insert(words[0], v));
                                assert(state.view() == apply_words(old(state).view(), words, delta));
                            }
                            return;
                        }
                        i += 1;
                    }
                    proof {
                        lemma_counters_absent(old_entries, key@);
                    }
                    let k = parts[0].clone();
                    let v = 0i64.wrapping_add(d);
                    state.entries.push((k, v));
                    proof {
                        assert(state.entries@.drop_last() == old_entries);
                    }
                },
                None => {},
            }
        }
    }
}


/// Something the event log of the driver records.
#[derive(Debug)]
pub enum RaftEvent {
    StartsElection { node: usize, term: u64 },
    BecomesLeader { node: usize, term: u64 },
    VotesFor { voter: usize, candidate: usize },
    Commits { node: usize, index: usize },
    ClientRejected,
    ClientCommand { node: usize, command: String },
    Restarted { node: usize },
    Crashed { node: usize },
}

/// What the driver must do, in order, after a decision.
#[derive(Debug)]
pub enum Action {
    /// Hand `rpc` from `from` to the network towards `to`.
    Send { from: usize, to: usize, rpc: Rpc },
    /// Draw a new election timeout for `node` and restart its election timer.
    ResetElectionTimer { node: usize },
    /// Draw a new election timeout for `node` and restart both its election
    /// and its heartbeat timers.
    ResetFollowerTimers { node: usize },
    /// Restart the election and heartbeat timers of `node`, keeping its
    /// election timeout.
    ClearTimers { node: usize },
    /// Record an event.
    Note { event: RaftEvent },
}

/// One node of the cluster: its persistent and volatile Raft state.
#[derive(Debug)]
pub struct Node {
    pub id: usize,
    pub role: Role,
    pub current_term: u64,
    pub voted_for: Option<usize>,
    pub log: Vec<LogEntry>,
    pub commit_index: usize,
    pub last_applied: usize,
    pub state_machine: StateMachine,
    pub votes_received: Vec<usize>,
    pub next_index: Vec<usize>,
    pub match_index: Vec<usize>,
    pub alive: bool,
}

/// The term of the last entry of `log`, or 0.
pub open spec fn last_term(log: Seq<LogEntry>) -> u64 {
    if log.len() == 0 {
        0
    } else {
        log.last().term
    }
}

impl Node {
    /// The node's invariant in a cluster of `n` nodes.
    pub open spec fn wf(&self, n: int) -> bool {
        &&& self.next_index@.len() == n
        &&& self.match_index@.len() == n
        &&& self.log@.len() < usize::MAX
        &&& self.state_machine.wf()
        &&& forall|i: int, j: int|
            0 <= i < j < self.votes_received@.len() ==> self.votes_received@[i] != self.votes_received@[j]
        &&& (self.role == Role::Candidate || self.role == Role::Leader) ==> self.voted_for == Some(self.id)
    }

    /// A follower of term 0 with an empty log, in a cluster of `node_count`
    /// nodes.
    pub fn new(id: usize, node_count: usize) -> (node: Node)
        ensures
            node.wf(node_count as int),
            node.id == id,
            node.role == Role::Follower,
            node.current_term == 0,
            node.voted_for is None,
            node.log@.len() == 0,
            node.commit_index == 0,
            node.last_applied == 0,
            node.state_machine.view() == Map::<Seq<char>, i64>::empty(),
            node.votes_received@.len() == 0,
            forall|i: int| 0 <= i < node_count ==> #[trigger] node.next_index@[i] == 1 && node.match_index@[i] == 0,
            node.alive,
    {
        Node {
            id,
            role: Role::Follower,
            current_term: 0,
            voted_for: None,
            log: Vec::new(),
            commit_index: 0,
            last_applied: 0,
            state_machine: StateMachine::new(),
            votes_received: Vec::new(),
            next_index: filled(1, node_count),
            match_index: filled(0, node_count),
            alive: true,
        }
    }

    pub fn last_log_index(&self) -> (i: usize)
        ensures
            i == self.log@.len(),
    {
        self.log.len()
    }

    pub fn last_log_term(&self) -> (t: u64)
        ensures
            t == last_term(self.log@),
    {
        if self.log.len() == 0 {
            0
        } else {
            self.log[self.log.len() - 1].term
        }
    }
}

/// `n` copies of `v`.
fn filled(v: usize, n: usize) -> (r: Vec<usize>)
    ensures
        r@.len() == n,
        forall|i: int| 0 <= i < n ==> #[trigger] r@[i] == v,
{
    let mut r: Vec<usize> = Vec::new();
    let mut i: usize = 0;
    while i < n
        invariant
            i <= n,
            r@.len() == i,
            forall|k: int| 0 <= k < i ==> #[trigger] r@[k] == v,
        decreases n - i,
    {
        r.push(v);
        i += 1;
    }
    r
}

/// The nodes of a simulated cluster and the count of client requests.
#[derive(Debug)]
pub struct Cluster {
    pub nodes: Vec<Node>,
    pub client_seq: u64,
}

/// Votes are counted up to a majority of `n` nodes.
pub open spec fn majority_of(n: int) -> int {
    n / 2 + 1
}

/// The nodes (indices below `n`) whose match index has reached `index`.
pub open spec fn replicated_count(ms: Seq<usize>, index: int) -> int
    decreases ms.len(),
{
    if ms.len() == 0 {
        0
    } else {
        replicated_count(ms.drop_last(), index) + if ms.last() >= index {
            1int
        } else {
            0int
        }
    }
}

/// A message that node `to` of a cluster of `n` can handle: the entries of
/// an append request whose entry before them lies within the log fit after
/// it, and an answer to one
/// that reaches a leader of its term comes from a node of the cluster, with
/// a match index that can be stepped past when it succeeded.
pub open spec fn rpc_ok(rpc: Rpc, to: Node, n: int) -> bool {
    match rpc {
        Rpc::AppendEntries { prev_log_index, entries, .. } => prev_log_index <= to.log@.len() ==> prev_log_index
            + entries@.len() < usize::MAX,
        Rpc::AppendEntriesResponse { term, success, from, match_index } => (to.role == Role::Leader && term
            == to.current_term) ==> from < n && (success ==> match_index < usize::MAX),
        _ => true,
    }
}

/// The node's log after taking `entries` from position `at` on: an entry
/// whose position holds an entry of another term replaces that entry and
/// everything after it; an entry of the same term is kept as it is.
pub open spec fn merge_entries(log: Seq<LogEntry>, at: int, entries: Seq<LogEntry>) -> Seq<LogEntry>
    decreases entries.len(),
{
    if entries.len() == 0 {
        log
    } else {
        let e = entries[0];
        let next = if at < log.len() {
            if log[at].term != e.term {
                log.take(at).push(e)
            } else {
                log
            }
        } else {
            log.push(e)
        };
        merge_entries(next, at + 1, entries.drop_first())
    }
}

/// Law (log matching): merging keeps the log before `at` and leaves entries
/// of the terms of `entries` at the positions after it.
pub proof fn lemma_merge_entries(log: Seq<LogEntry>, at: int, entries: Seq<LogEntry>)
    requires
        0 <= at <= log.len(),
    ensures
        merge_entries(log, at, entries).len() >= at + entries.len(),
        merge_entries(log, at, entries).take(at) == log.take(at),
        forall|i: int|
            0 <= i < entries.len() ==> #[trigger] merge_entries(log, at, entries)[at + i].term == entries[i].term,
    decreases entries.len(),
{
    if entries.len() > 0 {
        let e = entries[0];
        let next = if at < log.len() {
            if log[at].term != e.term {
                log.take(at).push(e)
            } else {
                log
            }
        } else {
            log.push(e)
        };
        lemma_merge_entries(next, at + 1, entries.drop_first());
        let m = merge_entries(log, at, entries);
        assert(m == merge_entries(next, at + 1, entries.drop_first()));
        assert(m.take(at + 1).take(at) == m.take(at));
        assert(next.take(at + 1).take(at) == log.take(at));
        assert(m.take(at) == log.take(at));
        assert(m[at] == next.take(at + 1)[at]);
        assert forall|i: int| 0 <= i < entries.len() implies #[trigger] m[at + i].term == entries[i].term by {
            if i > 0 {
                assert(entries.drop_first()[i - 1] == entries[i]);
                assert(m[(at + 1) + (i - 1)].term == entries.drop_first()[i - 1].term);
            }
        }
    }
}

/// The state after applying `cmds` in order.
pub open spec fn apply_all(state: Map<Seq<char>, i64>, cmds: Seq<LogEntry>) -> Map<Seq<char>, i64>
    decreases cmds.len(),
{
    if cmds.len() == 0 {
        state
    } else {
        apply_spec(apply_all(state, cmds.drop_last()), cmds.last().command@)
    }
}

/// Once the term stays, so does a vote cast in it.
pub open spec fn vote_kept(before: Node, after: Node) -> bool {
    (after.current_term == before.current_term && before.voted_for is Some) ==> after.voted_for == before.voted_for
}

/// Node `nd` has the next and match indices of a fresh node of a cluster
/// of `n`.
pub open spec fn fresh_indices(nd: Node, n: int) -> bool {
    forall|j: int| 0 <= j < n ==> #[trigger] nd.next_index@[j] == 1 && nd.match_index@[j] == 0
}

proof fn lemma_fresh_node(nd: Node, n: int)
    requires
        forall|i: int| 0 <= i < n ==> #[trigger] nd.next_index@[i] == 1 && nd.match_index@[i] == 0,
    ensures
        fresh_indices(nd, n),
{
}

impl Cluster {
    pub open spec fn wf(&self) -> bool {
        &&& self.nodes@.len() <= usize::MAX
        &&& forall|i: int| 0 <= i < self.nodes@.len() ==> #[trigger] self.nodes@[i].wf(self.nodes@.len() as int)
        &&& forall|i: int| 0 <= i < self.nodes@.len() ==> #[trigger] self.nodes@[i].id == i
    }

    /// What every decision keeps: the invariant, the number of nodes, and
    /// no node's term going down.
    pub open spec fn evolves_to(&self, after: &Cluster) -> bool {
        &&& after.wf()
        &&& after.nodes@.len() == self.nodes@.len()
        &&& after.client_seq >= self.client_seq
        &&& forall|i: int| 0 <= i < self.nodes@.len() ==> #[trigger] after.nodes@[i].current_term >= self.nodes@[i].current_term
    }

    /// A cluster of `node_count` fresh followers.
    pub fn new(node_count: usize) -> (c: Cluster)
        ensures
            c.wf(),
            c.nodes@.len() == node_count,
            c.client_seq == 0,
            forall|i: int| 0 <= i < node_count ==> {
                let nd = #[trigger] c.nodes@[i];
                &&& nd.role == Role::Follower
                &&& nd.current_term == 0
                &&& nd.voted_for is None
                &&& nd.votes_received@.len() == 0
                &&& nd.log@.len() == 0
                &&& nd.alive
                &&& nd.commit_index == 0
                &&& nd.last_applied == 0
                &&& nd.state_machine.view() == Map::<Seq<char>, i64>::empty()
                &&& fresh_indices(nd, node_count as int)
            },
    {
        let mut nodes: Vec<Node> = Vec::new();
        let mut id: usize = 0;
        while id < node_count
            invariant
                id <= node_count,
                nodes@.len() == id,
                forall|i: int|
                    #![trigger nodes@[i]]
                    0 <= i < id ==> nodes@[i].wf(node_count as int) && nodes@[i].id == i
                    && nodes@[i].role == Role::Follower && nodes@[i].current_term == 0 && nodes@[i].log@.len() == 0
                    && nodes@[i].voted_for is None && nodes@[i].votes_received@.len() == 0 && nodes@[i].alive
                    && nodes@[i].commit_index == 0 && nodes@[i].last_applied == 0
                    && nodes@[i].state_machine.view() == Map::<Seq<char>, i64>::empty(),
            forall|i: int| 0 <= i < id ==> #[trigger] fresh_indices(nodes@[i], node_count as int),
            decreases node_count - id,
        {
            let ghost before = nodes@;
            let nd = Node::new(id, node_count);
            proof {
                lemma_fresh_node(nd, node_count as int);
            }
            nodes.push(nd);
            assert forall|i: int| 0 <= i < id implies #[trigger] nodes@[i] == before[i] by {}
            assert(nodes@[id as int] == nd);
            assert(nd.commit_index == 0 && nd.last_applied == 0);
            assert(nd.state_machine.view() == Map::<Seq<char>, i64>::empty());
            assert forall|i: int| 0 <= i < id + 1 implies #[trigger] fresh_indices(nodes@[i], node_count as int) by {
                if i < id {
                    assert(nodes@[i] == before[i]);
                }
            }
            id += 1;
        }
        let c = Cluster { nodes, client_seq: 0 };
        assert forall|i: int| 0 <= i < c.nodes@.len() implies #[trigger] c.nodes@[i].wf(c.nodes@.len() as int) by {
            assert(c.nodes@[i].id == i);
        }

        c
    }

    /// The number of votes that makes a quorum.
    pub fn majority(&self) -> (m: usize)
        ensures
            m == majority_of(self.nodes@.len() as int),
    {
        self.nodes.len() / 2 + 1
    }
}

/// Law: two quorums of the same cluster share a node, which is why a term
/// has at most one leader.
pub proof fn lemma_quorums_intersect(n: int, a: Set<int>, b: Set<int>)
    requires
        0 <= n,
        forall|x: int| #[trigger] a.contains(x) ==> 0 <= x < n,
        forall|x: int| #[trigger] b.contains(x) ==> 0 <= x < n,
        a.finite(),
        b.finite(),
        a.len() >= majority_of(n),
        b.len() >= majority_of(n),
    ensures
        exists|x: int| a.contains(x) && b.contains(x),
{
    vstd::set_lib::lemma_int_range(0, n);
    let r = vstd::set_lib::set_int_range(0, n);
    assert((a + b).subset_of(r));
    vstd::set_lib::lemma_len_subset(a + b, r);
    vstd::set_lib::lemma_set_intersect_union_lens(a, b);
    assert(a.intersect(b).len() > 0);
    let x = a.intersect(b).choose();
    assert(a.intersect(b).contains(x));
}


/// A copy of `log[from..]`.
fn log_suffix(log: &Vec<LogEntry>, from: usize) -> (r: Vec<LogEntry>)
    requires
        from <= log@.len(),
    ensures
        r@ == log@.subrange(from as int, log@.len() as int),
{
    let mut r: Vec<LogEntry> = Vec::new();
    let mut i: usize = from;
    while i < log.len()
        invariant
            from <= i <= log@.len(),
            r@ == log@.subrange(from as int, i as int),
        decreases log@.len() - i,
    {
        r.push(log[i].duplicate());
        i += 1;
    }
    r
}

/// `act` sends follower `follower_id` the entries of leader `ld` (node
/// `leader_id`) from the follower's next index on, clamped to the log, with
/// the entry before them and the leader's commit index.
pub open spec fn is_append_entries(act: Action, ld: Node, leader_id: usize, follower_id: usize) -> bool {
    let next = clamp_next(ld.next_index@[follower_id as int] as int, ld.log@.len() as int);
    let prev = next - 1;
    &&& act matches Action::Send { from, to, rpc: Rpc::AppendEntries {
        term,
        leader_id: lid,
        prev_log_index,
        prev_log_term,
        entries,
        leader_commit,
    } }
    &&& from == leader_id && to == follower_id && lid == leader_id
    &&& term == ld.current_term
    &&& prev_log_index == prev
    &&& prev_log_term == (if prev == 0 {
        0
    } else {
        ld.log@[prev - 1].term
    })
    &&& entries@ == ld.log@.subrange(prev, ld.log@.len() as int)
    &&& leader_commit == ld.commit_index
}

/// The `j`-th node other than `skip`.
pub open spec fn peer_of(j: int, skip: int) -> int {
    if j < skip {
        j
    } else {
        j + 1
    }
}

/// `acts` sends the entries of leader `ld` (node `leader_id` of a cluster
/// of `n`) to every other node in order of their ids, or is empty when the
/// leader is down.
pub open spec fn sends_entries_to_all(acts: Seq<Action>, ld: Node, leader_id: usize, n: int) -> bool {
    if !ld.alive {
        acts.len() == 0
    } else {
        &&& acts.len() == n - 1
        &&& forall|j: int|
            0 <= j < n - 1 ==> #[trigger] is_append_entries(acts[j], ld, leader_id, peer_of(j, leader_id as int) as usize)
    }
}

/// Replacing one node by a well-formed node with the same id keeps the
/// cluster well-formed.
proof fn lemma_wf_update(nodes: Seq<Node>, id: int, node: Node)
    requires
        0 <= id < nodes.len(),
        forall|i: int| 0 <= i < nodes.len() ==> #[trigger] nodes[i].wf(nodes.len() as int),
        forall|i: int| 0 <= i < nodes.len() ==> #[trigger] nodes[i].id == i,
        node.wf(nodes.len() as int),
        node.id == id,
    ensures
        forall|i: int| 0 <= i < nodes.len() ==> #[trigger] nodes.update(id, node)[i].wf(nodes.len() as int),
        forall|i: int| 0 <= i < nodes.len() ==> #[trigger] nodes.update(id, node)[i].id == i,
{
    assert forall|i: int| 0 <= i < nodes.len() implies #[trigger] nodes.update(id, node)[i].wf(nodes.len() as int)
        && nodes.update(id, node)[i].id == i by {
        if i != id {
            assert(nodes.update(id, node)[i] == nodes[i]);
        }
    }
}

impl Cluster {
    /// Node `id` of a well-formed cluster is well-formed.
    proof fn lemma_node_wf(&self, id: int)
        requires
            self.wf(),
            0 <= id < self.nodes@.len(),
        ensures
            self.nodes@[id].wf(self.nodes@.len() as int),
            self.nodes@[id].id == id,
    {
    }

    /// Moves node `id` out, leaving a placeholder.
    fn take_node(&mut self, id: usize) -> (node: Node)
        requires
            id < old(self).nodes@.len(),
        ensures
            node == old(self).nodes@[id as int],
            final(self).nodes@.len() == old(self).nodes@.len(),
            forall|i: int| 0 <= i < old(self).nodes@.len() && i != id ==> #[trigger] final(self).nodes@[i] == old(self).nodes@[i],
            final(self).client_seq == old(self).client_seq,
    {
        let mut tmp = Node::new(id, 0);
        self.nodes.set_and_swap(id, &mut tmp);
        tmp
    }

    /// Puts `node` back at `id`.
    fn put_node(&mut self, id: usize, node: Node)
        requires
            id < old(self).nodes@.len(),
        ensures
            final(self).nodes@ == old(self).nodes@.update(id as int, node),
            final(self).client_seq == old(self).client_seq,
    {
        self.nodes.set(id, node);
    }

    /// Node `id` steps down to follower of `term`, forgetting its vote and
    /// the votes it gathered.
    pub fn become_follower(&mut self, id: usize, term: u64, actions: &mut Vec<Action>)
        requires
            old(self).wf(),
            id < old(self).nodes@.len(),
        ensures
            final(self).wf(),
            final(self).nodes@.len() == old(self).nodes@.len(),
            final(self).client_seq == old(self).client_seq,
            forall|i: int| 0 <= i < old(self).nodes@.len() && i != id ==> #[trigger] final(self).nodes@[i] == old(self).nodes@[i],
            ({
                let a = old(self).nodes@[id as int];
                let b = final(self).nodes@[id as int];
                &&& b == Node {
                    role: Role::Follower,
                    current_term: term,
                    voted_for: None,
                    votes_received: b.votes_received,
                    ..a
                }
                &&& b.votes_received@.len() == 0
            }),
            final(actions)@ == old(actions)@.push(Action::ResetFollowerTimers { node: id }),
    {
        actions.push(Action::ResetFollowerTimers { node: id });
        proof {
            self.lemma_node_wf(id as int);
        }
        let ghost before = self.nodes@;
        let mut node = self.take_node(id);
        node.role = Role::Follower;
        node.current_term = term;
        node.voted_for = None;
        node.votes_received.clear();
        proof {
            lemma_wf_update(before, id as int, node);
        }
        self.put_node(id, node);
    }

    /// Sends `follower` the leader's entries from the follower's next index
    /// on (clamped to the log), with the entry before them and the commit
    /// index; a crashed leader sends nothing.
    pub fn send_append_entries(&self, leader_id: usize, follower_id: usize, actions: &mut Vec<Action>)
        requires
            self.wf(),
            leader_id < self.nodes@.len(),
            follower_id < self.nodes@.len(),
        ensures
            !self.nodes@[leader_id as int].alive ==> final(actions)@ == old(actions)@,
            self.nodes@[leader_id as int].alive ==> {
                &&& final(actions)@.len() == old(actions)@.len() + 1
                &&& final(actions)@.drop_last() == old(actions)@
                &&& is_append_entries(final(actions)@.last(), self.nodes@[leader_id as int], leader_id, follower_id)
            },
    {
        if !self.nodes[leader_id].alive {
            return;
        }
        proof {
            self.lemma_node_wf(leader_id as int);
        }
        let leader = &self.nodes[leader_id];
        let mut next = leader.next_index[follower_id];
        if next < 1 {
            next = 1;
        }
        if next > leader.log.len() + 1 {
            next = leader.log.len() + 1;
        }
        let prev_log_index = next - 1;
        let prev_log_term = if prev_log_index == 0 {
            0
        } else {
            leader.log[prev_log_index - 1].term
        };
        let entries = log_suffix(&leader.log, prev_log_index);
        let term = leader.current_term;
        let leader_commit = leader.commit_index;
        actions.push(
            Action::Send {
                from: leader_id,
                to: follower_id,
                rpc: Rpc::AppendEntries {
                    term,
                    leader_id,
                    prev_log_index,
                    prev_log_term,
                    entries,
                    leader_commit,
                },
            },
        );
    }

    /// Sends the leader's entries to every other node.
    pub fn send_append_entries_to_all(&self, leader_id: usize, actions: &mut Vec<Action>)
        requires
            self.wf(),
            leader_id < self.nodes@.len(),
        ensures
            final(actions)@.len() >= old(actions)@.len(),
            final(actions)@.subrange(0, old(actions)@.len() as int) == old(actions)@,
            sends_entries_to_all(
                final(actions)@.skip(old(actions)@.len() as int),
                self.nodes@[leader_id as int],
                leader_id,
                self.nodes@.len() as int,
            ),
    {
        let n = self.nodes.len();
        let ghost ld = self.nodes@[leader_id as int];
        let ghost base = old(actions)@.len() as int;
        let mut peer: usize = 0;
        while peer < n
            invariant
                self.wf(),
                n == self.nodes@.len(),
                ld == self.nodes@[leader_id as int],
                base == old(actions)@.len(),
                leader_id < n,
                peer <= n,
                actions@.len() >= base,
                actions@.subrange(0, base) == old(actions)@,
                !ld.alive ==> actions@.len() == base,
                ld.alive ==> actions@.len() == base + peer - (if peer > leader_id { 1int } else { 0int }),
                ld.alive ==> forall|j: int|
                    0 <= j < actions@.len() - base ==> #[trigger] is_append_entries(
                        actions@[base + j],
                        ld,
                        leader_id,
                        peer_of(j, leader_id as int) as usize,
                    ),
            decreases n - peer,
        {
            if peer != leader_id {
                let ghost before = actions@;
                self.send_append_entries(leader_id, peer, actions);
                assert(actions@.subrange(0, base) == before.subrange(0, base));
                proof {
                    if ld.alive {
                        assert forall|j: int| 0 <= j < actions@.len() - base implies #[trigger] is_append_entries(
                            actions@[base + j],
                            ld,
                            leader_id,
                            peer_of(j, leader_id as int) as usize,
                        ) by {
                            if base + j < before.len() {
                                assert(actions@[base + j] == before[base + j]);
                            }
                        }
                    }
                }
            }
            peer += 1;
        }
        proof {
            let tail = actions@.skip(base);
            if ld.alive {
                assert forall|j: int| 0 <= j < n - 1 implies #[trigger] is_append_entries(
                    tail[j],
                    ld,
                    leader_id,
                    peer_of(j, leader_id as int) as usize,
                ) by {
                    assert(tail[j] == actions@[base + j]);
                }
            }
        }
    }

}

/// Node `b` is node `a` taking the lead in a cluster of `n`: it becomes
/// leader with its own vote, every next index one past its log, and every
/// match index zero but its own, which is its log's length.
pub open spec fn leads(a: Node, b: Node, id: usize, n: int) -> bool {
    &&& b == (Node {
        role: Role::Leader,
        voted_for: Some(id),
        next_index: b.next_index,
        match_index: b.match_index,
        ..a
    })
    &&& b.next_index@.len() == n
    &&& b.match_index@.len() == n
    &&& forall|i: int| 0 <= i < n ==> #[trigger] b.next_index@[i] == a.log@.len() + 1
    &&& forall|i: int| 0 <= i < n ==> #[trigger] b.match_index@[i] == if i == id {
        a.log@.len() as int
    } else {
        0
    }
}

/// The actions of taking the lead: restart the timers, note it, and send
/// entries to every other node.
pub open spec fn leader_actions(acts: Seq<Action>, b: Node, id: usize, n: int) -> bool {
    &&& acts.len() >= 2
    &&& acts[0] == (Action::ClearTimers { node: id })
    &&& acts[1] == (Action::Note { event: RaftEvent::BecomesLeader { node: id, term: b.current_term } })
    &&& sends_entries_to_all(acts.skip(2), b, id, n)
}

impl Cluster {
    /// Node `leader_id` takes the lead: next indices past its log, match
    /// indices zero but its own, timers restarted, and entries sent out.
    pub fn become_leader(&mut self, leader_id: usize, actions: &mut Vec<Action>)
        requires
            old(self).wf(),
            leader_id < old(self).nodes@.len(),
        ensures
            final(self).wf(),
            final(self).nodes@.len() == old(self).nodes@.len(),
            final(self).client_seq == old(self).client_seq,
            forall|i: int| 0 <= i < old(self).nodes@.len() && i != leader_id ==> #[trigger] final(self).nodes@[i] == old(self).nodes@[i],
            leads(old(self).nodes@[leader_id as int], final(self).nodes@[leader_id as int], leader_id, old(self).nodes@.len() as int),
            final(actions)@.len() >= old(actions)@.len(),
            final(actions)@.subrange(0, old(actions)@.len() as int) == old(actions)@,
            leader_actions(
                final(actions)@.skip(old(actions)@.len() as int),
                final(self).nodes@[leader_id as int],
                leader_id,
                old(self).nodes@.len() as int,
            ),
    {
        proof {
            self.lemma_node_wf(leader_id as int);
        }
        let last = self.nodes[leader_id].log.len() + 1;
        let term = self.nodes[leader_id].current_term;
        let node_count = self.nodes.len();
        let ghost before = self.nodes@;
        let mut node = self.take_node(leader_id);
        node.role = Role::Leader;
        node.voted_for = Some(leader_id);
        node.next_index = filled(last, node_count);
        node.match_index = filled(0, node_count);
        let own = node.log.len();
        node.match_index.set(leader_id, own);
        proof {
            lemma_wf_update(before, leader_id as int, node);
        }
        self.put_node(leader_id, node);
        actions.push(Action::ClearTimers { node: leader_id });
        actions.push(Action::Note { event: RaftEvent::BecomesLeader { node: leader_id, term } });
        let ghost mid = actions@;
        self.send_append_entries_to_all(leader_id, actions);
        proof {
            let base = old(actions)@.len() as int;
            assert(actions@.subrange(0, base) == mid.subrange(0, base));
            assert(actions@.skip(base)[0] == mid[base]);
            assert(actions@.skip(base)[1] == mid[base + 1]);
            assert(actions@.skip(base).skip(2) == actions@.skip(mid.len() as int));
        }
    }
}

/// The next index used when sending entries: at least 1, at most one past
/// the log.
pub open spec fn clamp_next(next: int, len: int) -> int {
    if next < 1 {
        1
    } else if next > len + 1 {
        len + 1
    } else {
        next
    }
}


/// The candidate's log, ending at `last_log_index` with an entry of
/// `last_log_term`, is at least as up to date as `log`.
pub open spec fn up_to_date(last_log_index: usize, last_log_term: u64, log: Seq<LogEntry>) -> bool {
    last_log_term > last_term(log) || (last_log_term == last_term(log) && last_log_index >= log.len())
}

/// Whether a node in state `a` grants a vote request of `term` from
/// `candidate`, after stepping down to `term` when it is newer.
pub open spec fn grants_vote(a: Node, term: u64, candidate: usize, last_log_index: usize, last_log_term: u64) -> bool {
    let voted = if term > a.current_term {
        None
    } else {
        a.voted_for
    };
    &&& term >= a.current_term
    &&& (voted is None || voted == Some(candidate))
    &&& up_to_date(last_log_index, last_log_term, a.log@)
}

/// The entry before position `prev` of `log` exists and has term
/// `prev_term` (position 0 stands for the empty log).
pub open spec fn prev_matches(log: Seq<LogEntry>, prev: int, prev_term: u64) -> bool {
    prev == 0 || (prev <= log.len() && log[prev - 1].term == prev_term)
}

/// The highest index above `from` and at most `to` whose entry has term
/// `term` and is matched by a quorum, or `from` when there is none.
pub open spec fn commit_target(log: Seq<LogEntry>, ms: Seq<usize>, term: u64, quorum: int, from: int, to: int) -> int
    decreases to - from,
{
    if to <= from {
        from
    } else if log[to - 1].term == term && replicated_count(ms, to) >= quorum {
        to
    } else {
        commit_target(log, ms, term, quorum, from, to - 1)
    }
}

/// The text of the `seq`-th client command.
pub open spec fn client_command(seq: u64) -> Seq<char> {
    "counter += "@ + decimal(seq as nat)
}

/// The decimal form of `n` is one or more ASCII digits whose value is `n`.
proof fn lemma_decimal_reads_back(n: nat)
    ensures
        decimal(n).len() >= 1,
        forall|i: int| 0 <= i < decimal(n).len() ==> '0' <= #[trigger] decimal(n)[i] <= '9',
        decimal_value(decimal(n)) == n,
    decreases n,
{
    if n < 10 {
        let d = decimal(n);
        assert(d == seq![digit_char(n as int)]);
        assert(d.drop_last() =~= Seq::<char>::empty());
        assert((digit_char(n as int) as u32) == 48 + n);
        assert(decimal_value(d.drop_last()) == 0);
        assert(d.last() == digit_char(n as int));
        assert(decimal_value(d) == decimal_value(d.drop_last()) * 10 + ((d.last() as u32) - ('0' as u32)));
    } else {
        lemma_decimal_reads_back(n / 10);
        let d = decimal(n);
        let c = digit_char((n % 10) as int);
        assert(d == decimal(n / 10).push(c));
        assert(d.drop_last() =~= decimal(n / 10));
        assert((c as u32) == 48 + n % 10);
        assert(forall|i: int| 0 <= i < d.len() ==> '0' <= #[trigger] d[i] <= '9') by {
            assert forall|i: int| 0 <= i < d.len() implies '0' <= #[trigger] d[i] <= '9' by {
                if i < d.len() - 1 {
                    assert(d[i] == decimal(n / 10)[i]);
                }
            }
        }
        assert(d.last() == c);
        assert(decimal_value(d) == decimal_value(d.drop_last()) * 10 + ((d.last() as u32) - ('0' as u32)));
        assert(decimal_value(d) == (n / 10) * 10 + n % 10);
        assert(n == (n / 10) * 10 + n % 10) by (nonlinear_arith);
    }
}

/// Characters that are not white space run into the word being read.
proof fn lemma_words_run(cur: Seq<char>, w: Seq<char>, rest: Seq<char>)
    requires
        forall|i: int| 0 <= i < w.len() ==> !is_white_space(#[trigger] w[i]),
    ensures
        words_after(cur, w + rest) == words_after(cur + w, rest),
    decreases w.len(),
{
    if w.len() == 0 {
        assert(w + rest =~= rest);
        assert(cur + w =~= cur);
    } else {
        assert((w + rest)[0] == w[0]);
        assert((w + rest).drop_first() =~= w.drop_first() + rest);
        assert(cur.push(w[0]) + w.drop_first() =~= cur + w);
        assert forall|i: int| 0 <= i < w.drop_first().len() implies !is_white_space(#[trigger] w.drop_first()[i]) by {
            assert(w.drop_first()[i] == w[i + 1]);
        }
        lemma_words_run(cur.push(w[0]), w.drop_first(), rest);
    }
}

/// Law (each client request counts itself): the command of client request
/// number `seq`, read as a command, adds `seq` to the counter `counter`
/// (wrapping) and leaves every other key as it is; a number beyond the
/// largest `i64` cannot be read as an `i64`, so it is left out.
pub proof fn lemma_client_command_adds_its_number(state: Map<Seq<char>, i64>, seq: u64)
    requires
        seq <= i64::MAX,
    ensures
        apply_spec(state, client_command(seq)) == state.insert(
            seq!['c', 'o', 'u', 'n', 't', 'e', 'r'],
            vstd::wrapping::i64_specs::wrapping_add(
                if state.contains_key(seq!['c', 'o', 'u', 'n', 't', 'e', 'r']) {
                    state[seq!['c', 'o', 'u', 'n', 't', 'e', 'r']]
                } else {
                    0
                },
                seq as i64,
            ),
        ),
{
    let word = seq!['c', 'o', 'u', 'n', 't', 'e', 'r'];
    let op = seq!['+', '='];
    let d = decimal(seq as nat);
    lemma_decimal_reads_back(seq as nat);
    reveal_strlit("counter += ");
    reveal_strlit("+=");
    let cmd = client_command(seq);
    let sp = seq![' '];
    assert(cmd =~= word + (sp + (op + (sp + d))));
    assert(forall|i: int| 0 <= i < word.len() ==> !is_white_space(#[trigger] word[i]));
    assert(forall|i: int| 0 <= i < op.len() ==> !is_white_space(#[trigger] op[i]));
    assert forall|i: int| 0 <= i < d.len() implies !is_white_space(#[trigger] d[i]) by {
        assert('0' <= d[i] <= '9');
    }
    assert(is_white_space(' '));
    lemma_words_run(Seq::empty(), word, sp + (op + (sp + d)));
    assert(Seq::<char>::empty() + word =~= word);
    let r1 = op + (sp + d);
    assert((sp + r1)[0] == ' ');
    assert((sp + r1).drop_first() =~= r1);
    assert(words_after(word, sp + r1) == seq![word] + words_after(seq![], r1));
    lemma_words_run(Seq::empty(), op, sp + d);
    assert(Seq::<char>::empty() + op =~= op);
    assert((sp + d)[0] == ' ');
    assert((sp + d).drop_first() =~= d);
    assert(words_after(op, sp + d) == seq![op] + words_after(seq![], d));
    lemma_words_run(Seq::empty(), d, Seq::empty());
    assert(d + Seq::<char>::empty() =~= d);
    assert(Seq::<char>::empty() + d =~= d);
    assert(words_after(d, Seq::<char>::empty()) == seq![d]);
    let words = whitespace_words(cmd);
    assert(words =~= seq![word, op, d]);
    assert(words[1] == "+="@);
    assert(d[0] != '-' && d[0] != '+') by {
        assert('0' <= d[0] <= '9');
    }
    assert(is_decimal(d));
    assert(parsed_i64(d) == Some(seq as i64));
}

/// `act` asks node `to` for its vote for candidate `c` in `term`, with the
/// last entry of the candidate's log.
pub open spec fn is_vote_request(act: Action, c: usize, to: int, term: u64, last_log_index: usize, last_log_term: u64) -> bool {
    act == Action::Send {
        from: c,
        to: to as usize,
        rpc: Rpc::RequestVote { term, candidate_id: c, last_log_index, last_log_term },
    }
}

/// How node `id` starts an election in a cluster of `n`, from state `a` to
/// state `b`, with the actions `acts`: it restarts its election timer,
/// becomes a candidate of the next term with its own vote, notes it, and
/// asks every other node for its vote in order of their ids; in a cluster
/// of one it takes the lead at once.
pub open spec fn election_outcome(a: Node, b: Node, acts: Seq<Action>, id: usize, n: int) -> bool {
    let t = (a.current_term + 1) as u64;
    let cand = Node {
        role: Role::Candidate,
        current_term: t,
        voted_for: Some(id),
        votes_received: b.votes_received,
        ..a
    };
    &&& b.votes_received@ == seq![id]
    &&& acts.len() >= 2
    &&& acts[0] == (Action::ResetElectionTimer { node: id })
    &&& acts[1] == (Action::Note { event: RaftEvent::StartsElection { node: id, term: t } })
    &&& if majority_of(n) == 1 {
        leads(cand, b, id, n) && leader_actions(acts.skip(2), b, id, n)
    } else {
        &&& b == cand
        &&& acts.len() == n + 1
        &&& forall|j: int|
            0 <= j < n - 1 ==> #[trigger] is_vote_request(
                acts[2 + j],
                id,
                peer_of(j, id as int),
                t,
                a.log@.len() as usize,
                last_term(a.log@),
            )
    }
}

/// Some action of `acts` from position `start` on is a message to node `j`.
pub open spec fn sent_to(acts: Seq<Action>, start: int, j: int) -> bool {
    exists|k: int| start <= k < acts.len() && (#[trigger] acts[k] matches Action::Send { to, .. } && to == j)
}

/// Law (an election asks every other node, with the candidate's log): in a
/// cluster of two or more, a node that starts an election becomes a
/// candidate of the next term voting for itself, and sends each other node
/// of the cluster a vote request of that term from itself, carrying the
/// length of its log and the term of its last entry (0 for an empty log),
/// and sends nothing else after its timer and its note.
pub proof fn lemma_election_asks_everyone(a: Node, b: Node, acts: Seq<Action>, id: usize, n: int)
    requires
        election_outcome(a, b, acts, id, n),
        0 <= id < n,
        2 <= n <= usize::MAX,
        a.current_term < u64::MAX,
    ensures
        b.role == Role::Candidate,
        b.current_term == a.current_term + 1,
        b.voted_for == Some(id),
        b.votes_received@ == seq![id],
        acts.len() == n + 1,
        forall|k: int|
            2 <= k < acts.len() ==> (#[trigger] acts[k] matches Action::Send {
                from,
                to,
                rpc: Rpc::RequestVote { term, candidate_id, last_log_index, last_log_term },
            } && from == id && to != id && to < n && term == a.current_term + 1 && candidate_id == id && last_log_index
                == a.log@.len() && last_log_term == (if a.log@.len() == 0 {
                0
            } else {
                a.log@[a.log@.len() - 1].term
            })),
        forall|j: int| 0 <= j < n && j != id ==> #[trigger] sent_to(acts, 2, j),
{
    assert(majority_of(n) != 1);
    if a.log@.len() > 0 {
        assert(a.log@.last() == a.log@[a.log@.len() - 1]);
    }
    assert forall|k: int| 2 <= k < acts.len() implies (#[trigger] acts[k] matches Action::Send {
        from,
        to,
        rpc: Rpc::RequestVote { term, candidate_id, last_log_index, last_log_term },
    } && from == id && to != id && to < n && term == a.current_term + 1 && candidate_id == id && last_log_index
        == a.log@.len() && last_log_term == (if a.log@.len() == 0 {
        0
    } else {
        a.log@[a.log@.len() - 1].term
    })) by {
        let j = k - 2;
        assert(a.log@.len() == a.log.len());
        assert(acts[k] == acts[2 + j]);
        assert(is_vote_request(acts[2 + j], id, peer_of(j, id as int), (a.current_term + 1) as u64, a.log@.len() as usize, last_term(a.log@)));
    }
    assert forall|j: int| 0 <= j < n && j != id implies #[trigger] sent_to(acts, 2, j) by {
        let jj = if j < id { j } else { j - 1 };
        assert(peer_of(jj, id as int) == j);
        assert(is_vote_request(acts[2 + jj], id, peer_of(jj, id as int), (a.current_term + 1) as u64, a.log@.len() as usize, last_term(a.log@)));
        assert(acts[2 + jj] matches Action::Send { to, .. } && to == j);
        assert(2 <= 2 + jj < acts.len());
    }
}

/// Law (what a leader sends to a follower): an append request of a leader
/// carries the leader's term and commit index, the index of an entry of its
/// log (or 0) with that entry's term (0 for index 0), and all the entries
/// of its log after that one.
pub proof fn lemma_append_request_continues_log(act: Action, ld: Node, leader_id: usize, follower_id: usize)
    requires
        is_append_entries(act, ld, leader_id, follower_id),
    ensures
        act matches Action::Send { from, to, rpc: Rpc::AppendEntries {
            term,
            leader_id: lid,
            prev_log_index,
            prev_log_term,
            entries,
            leader_commit,
        } } && from == leader_id && to == follower_id && lid == leader_id && term == ld.current_term && leader_commit
            == ld.commit_index && prev_log_index <= ld.log@.len() && prev_log_index + entries@.len() == ld.log@.len()
            && (forall|i: int| 0 <= i < entries@.len() ==> #[trigger] entries@[i] == ld.log@[prev_log_index + i])
            && prev_log_term == (if prev_log_index == 0 {
            0
        } else {
            ld.log@[prev_log_index - 1].term
        }),
{
    if let Action::Send { rpc: Rpc::AppendEntries { prev_log_index, entries, .. }, .. } = act {
        assert forall|i: int| 0 <= i < entries@.len() implies #[trigger] entries@[i] == ld.log@[prev_log_index + i] by {}
    }
}

impl Cluster {
    /// Node `candidate_id` starts an election: a new term, its own vote, a
    /// fresh election timeout, and vote requests to every other node (or
    /// the lead at once in a cluster of one).
    pub fn start_election(&mut self, candidate_id: usize) -> (actions: Vec<Action>)
        requires
            old(self).wf(),
            candidate_id < old(self).nodes@.len(),
            old(self).nodes@[candidate_id as int].current_term < u64::MAX,
        ensures
            old(self).evolves_to(final(self)),
            final(self).client_seq == old(self).client_seq,
            forall|i: int| 0 <= i < old(self).nodes@.len() && i != candidate_id ==> #[trigger] final(self).nodes@[i] == old(self).nodes@[i],
            election_outcome(
                old(self).nodes@[candidate_id as int],
                final(self).nodes@[candidate_id as int],
                actions@,
                candidate_id,
                old(self).nodes@.len() as int,
            ),
    {
        let mut actions: Vec<Action> = Vec::new();
        actions.push(Action::ResetElectionTimer { node: candidate_id });
        proof {
            self.lemma_node_wf(candidate_id as int);
        }
        let ghost before = self.nodes@;
        let mut node = self.take_node(candidate_id);
        node.role = Role::Candidate;
        node.current_term = node.current_term + 1;
        node.voted_for = Some(candidate_id);
        node.votes_received.clear();
        node.votes_received.push(candidate_id);
        let term = node.current_term;
        let last_log_index = node.last_log_index();
        let last_log_term = node.last_log_term();
        proof {
            lemma_wf_update(before, candidate_id as int, node);
        }
        self.put_node(candidate_id, node);
        actions.push(Action::Note { event: RaftEvent::StartsElection { node: candidate_id, term } });
        if self.majority() == 1 {
            let ghost mid = self.nodes@;
            let ghost acts = actions@;
            self.become_leader(candidate_id, &mut actions);
            proof {
                assert(actions@.subrange(0, 2)[0] == acts[0]);
                assert(actions@.subrange(0, 2)[1] == acts[1]);
                assert(actions@.skip(2) == actions@.skip(acts.len() as int));
                assert forall|i: int| 0 <= i < old(self).nodes@.len() implies #[trigger] self.nodes@[i].current_term
                    >= old(self).nodes@[i].current_term by {
                    if i != candidate_id {
                        assert(self.nodes@[i] == mid[i]);
                    }
                }
            }
            return actions;
        }
        let n = self.nodes.len();
        let mut peer: usize = 0;
        while peer < n
            invariant
                n == self.nodes@.len(),
                candidate_id < n,
                peer <= n,
                actions@.len() == 2 + peer - (if peer > candidate_id { 1int } else { 0int }),
                actions@[0] == (Action::ResetElectionTimer { node: candidate_id }),
                actions@[1] == (Action::Note { event: RaftEvent::StartsElection { node: candidate_id, term } }),
                forall|j: int|
                    0 <= j < actions@.len() - 2 ==> #[trigger] is_vote_request(
                        actions@[2 + j],
                        candidate_id,
                        peer_of(j, candidate_id as int),
                        term,
                        last_log_index,
                        last_log_term,
                    ),
            decreases n - peer,
        {
            if peer != candidate_id {
                let ghost prev = actions@;
                actions.push(
                    Action::Send {
                        from: candidate_id,
                        to: peer,
                        rpc: Rpc::RequestVote { term, candidate_id, last_log_index, last_log_term },
                    },
                );
                assert forall|j: int| 0 <= j < actions@.len() - 2 implies #[trigger] is_vote_request(
                    actions@[2 + j],
                    candidate_id,
                    peer_of(j, candidate_id as int),
                    term,
                    last_log_index,
                    last_log_term,
                ) by {
                    if 2 + j < prev.len() {
                        assert(actions@[2 + j] == prev[2 + j]);
                    }
                }
            }
            peer += 1;
        }
        proof {
            assert forall|i: int| 0 <= i < old(self).nodes@.len() implies #[trigger] self.nodes@[i].current_term
                >= old(self).nodes@[i].current_term by {
                if i != candidate_id {
                    assert(self.nodes@[i] == before[i]);
                }
            }
        }
        actions
    }
}


/// How a node answers a vote request, from state `a` to state `b`, with
/// the actions `acts`: a newer term makes it a follower of that term with
/// no vote and no votes gathered (restarting its timers); the vote is
/// granted as `grants_vote` says (restarting its election timer and noting
/// the vote); the answer carries its term and the decision.
pub open spec fn vote_request_outcome(
    a: Node,
    b: Node,
    acts: Seq<Action>,
    receiver: usize,
    reply_to: usize,
    term: u64,
    candidate: usize,
    last_log_index: usize,
    last_log_term: u64,
) -> bool {
    let granted = grants_vote(a, term, candidate, last_log_index, last_log_term);
    let stepped = term > a.current_term;
    &&& b == (Node {
        role: if stepped { Role::Follower } else { a.role },
        current_term: if stepped { term } else { a.current_term },
        voted_for: if granted {
            Some(candidate)
        } else if stepped {
            None
        } else {
            a.voted_for
        },
        votes_received: b.votes_received,
        ..a
    })
    &&& stepped ==> b.votes_received@.len() == 0
    &&& !stepped ==> b.votes_received == a.votes_received
    &&& acts == (if stepped {
        seq![Action::ResetFollowerTimers { node: receiver }]
    } else {
        Seq::<Action>::empty()
    }) + (if granted {
        seq![
            Action::ResetElectionTimer { node: receiver },
            Action::Note { event: RaftEvent::VotesFor { voter: receiver, candidate } },
        ]
    } else {
        Seq::<Action>::empty()
    }) + seq![
        Action::Send {
            from: receiver,
            to: reply_to,
            rpc: Rpc::RequestVoteResponse { term: b.current_term, vote_granted: granted, from: receiver },
        },
    ]
}

/// Law (the election restriction): a node grants a vote request only when
/// the candidate's log is at least as up to date as its own (the
/// candidate's last log term is newer than the term of the node's last
/// entry, or the same with a last log index at least the node's log
/// length), in the request's term, which is then the node's, and when it
/// has not voted for another node in that term; and it does grant such a
/// request of its term or a newer one unless it already voted for another
/// node in that term.
pub proof fn lemma_vote_needs_up_to_date_log(
    a: Node,
    b: Node,
    acts: Seq<Action>,
    receiver: usize,
    reply_to: usize,
    term: u64,
    candidate: usize,
    last_log_index: usize,
    last_log_term: u64,
)
    requires
        vote_request_outcome(a, b, acts, receiver, reply_to, term, candidate, last_log_index, last_log_term),
    ensures
        ({
            let own_last = if a.log@.len() == 0 {
                0u64
            } else {
                a.log@[a.log@.len() - 1].term
            };
            let log_ok = last_log_term > own_last || (last_log_term == own_last && last_log_index >= a.log@.len());
            let granted = acts.len() > 0 && (acts[acts.len() - 1] matches Action::Send {
                rpc: Rpc::RequestVoteResponse { vote_granted, .. },
                ..
            } && vote_granted);
            &&& acts.len() > 0
            &&& granted ==> log_ok && term >= a.current_term && b.current_term == term && b.voted_for == Some(candidate)
            &&& granted ==> term > a.current_term || a.voted_for is None || a.voted_for == Some(candidate)
            &&& (log_ok && term >= a.current_term && (term > a.current_term || a.voted_for is None || a.voted_for == Some(
                candidate,
            ))) ==> granted
        }),
{
    let granted = grants_vote(a, term, candidate, last_log_index, last_log_term);
    let pre = (if term > a.current_term {
        seq![Action::ResetFollowerTimers { node: receiver }]
    } else {
        Seq::<Action>::empty()
    }) + (if granted {
        seq![
            Action::ResetElectionTimer { node: receiver },
            Action::Note { event: RaftEvent::VotesFor { voter: receiver, candidate } },
        ]
    } else {
        Seq::<Action>::empty()
    });
    let reply = Action::Send {
        from: receiver,
        to: reply_to,
        rpc: Rpc::RequestVoteResponse { term: b.current_term, vote_granted: granted, from: receiver },
    };
    assert(acts == pre + seq![reply]);
    assert(acts[acts.len() - 1] == reply);
    if a.log@.len() > 0 {
        assert(a.log@.last() == a.log@[a.log@.len() - 1]);
    }
}

impl Cluster {
    /// Node `receiver_id` answers a vote request: it first steps down to a
    /// newer term, then grants the vote when the request is of its current
    /// term, it has not voted for another node in that term, and the
    /// candidate's log is at least as up to date as its own.
    pub fn on_request_vote(
        &mut self,
        receiver_id: usize,
        reply_to: usize,
        term: u64,
        candidate_id: usize,
        last_log_index: usize,
        last_log_term: u64,
        actions: &mut Vec<Action>,
    )
        requires
            old(self).wf(),
            receiver_id < old(self).nodes@.len(),
        ensures
            old(self).evolves_to(final(self)),
            final(self).client_seq == old(self).client_seq,
            forall|i: int| 0 <= i < old(self).nodes@.len() && i != receiver_id ==> #[trigger] final(self).nodes@[i] == old(self).nodes@[i],
            final(actions)@.len() >= old(actions)@.len(),
            final(actions)@.subrange(0, old(actions)@.len() as int) == old(actions)@,
            vote_request_outcome(
                old(self).nodes@[receiver_id as int],
                final(self).nodes@[receiver_id as int],
                final(actions)@.skip(old(actions)@.len() as int),
                receiver_id,
                reply_to,
                term,
                candidate_id,
                last_log_index,
                last_log_term,
            ),
    {
        proof {
            self.lemma_node_wf(receiver_id as int);
        }
        let ghost a = self.nodes@[receiver_id as int];
        if term > self.nodes[receiver_id].current_term {
            self.become_follower(receiver_id, term, actions);
        }
        let ghost mid = actions@;
        proof {
            self.lemma_node_wf(receiver_id as int);
        }
        let mut vote_granted = false;
        let response_term = self.nodes[receiver_id].current_term;
        if term == self.nodes[receiver_id].current_term {
            let my_last_term = self.nodes[receiver_id].last_log_term();
            let my_last_index = self.nodes[receiver_id].last_log_index();
            let up_to_date = last_log_term > my_last_term || (last_log_term == my_last_term && last_log_index
                >= my_last_index);
            let can_vote = match self.nodes[receiver_id].voted_for {
                None => true,
                Some(v) => v == candidate_id,
            };
            if can_vote && up_to_date {
                let ghost before = self.nodes@;
                let mut node = self.take_node(receiver_id);
                node.voted_for = Some(candidate_id);
                proof {
                    lemma_wf_update(before, receiver_id as int, node);
                }
                self.put_node(receiver_id, node);
                vote_granted = true;
            }
        }
        if vote_granted {
            actions.push(Action::ResetElectionTimer { node: receiver_id });
            actions.push(Action::Note { event: RaftEvent::VotesFor { voter: receiver_id, candidate: candidate_id } });
        }
        actions.push(
            Action::Send {
                from: receiver_id,
                to: reply_to,
                rpc: Rpc::RequestVoteResponse { term: response_term, vote_granted, from: receiver_id },
            },
        );
        proof {
            let base = old(actions)@.len() as int;
            let granted = grants_vote(a, term, candidate_id, last_log_index, last_log_term);
            assert(vote_granted == granted);
            assert(mid.skip(base) =~= (if term > a.current_term {
                seq![Action::ResetFollowerTimers { node: receiver_id }]
            } else {
                Seq::<Action>::empty()
            }));
            assert(actions@.skip(base) =~= mid.skip(base) + (if granted {
                seq![
                    Action::ResetElectionTimer { node: receiver_id },
                    Action::Note { event: RaftEvent::VotesFor { voter: receiver_id, candidate: candidate_id } },
                ]
            } else {
                Seq::<Action>::empty()
            }) + seq![
                Action::Send {
                    from: receiver_id,
                    to: reply_to,
                    rpc: Rpc::RequestVoteResponse { term: response_term, vote_granted, from: receiver_id },
                },
            ]);
        }
    }

}

/// How a candidate takes an answer to its vote request, from state `a` to
/// state `b`, with the actions `acts`: a newer term makes it a follower of
/// that term with no vote and no votes gathered (restarting its timers); an
/// answer that is refused, stale, or reaches a node that is no longer a
/// candidate changes nothing; a granted vote is counted once per voter,
/// and a majority of a cluster of `n` makes the node leader.
pub open spec fn vote_response_outcome(
    a: Node,
    b: Node,
    acts: Seq<Action>,
    n: int,
    candidate: usize,
    term: u64,
    granted: bool,
    from: usize,
) -> bool {
    let votes = if a.votes_received@.contains(from) {
        a.votes_received@
    } else {
        a.votes_received@.push(from)
    };
    let counted = Node { votes_received: b.votes_received, ..a };
    if term > a.current_term {
        &&& b == (Node {
            role: Role::Follower,
            current_term: term,
            voted_for: None,
            votes_received: b.votes_received,
            ..a
        })
        &&& b.votes_received@.len() == 0
        &&& acts == seq![Action::ResetFollowerTimers { node: candidate }]
    } else if a.role != Role::Candidate || term != a.current_term || !granted {
        &&& b == a
        &&& acts.len() == 0
    } else {
        &&& b.votes_received@ == votes
        &&& if votes.len() >= majority_of(n) {
            leads(counted, b, candidate, n) && leader_actions(acts, b, candidate, n)
        } else {
            b == counted && acts.len() == 0
        }
    }
}

/// Law (a majority makes a leader): a node becomes leader on an answer to
/// its vote request only as a candidate taking a granted vote of its own
/// term, with more than half of the nodes among the distinct voters for it;
/// and a candidate that such a vote brings to more than half does become
/// leader.
pub proof fn lemma_majority_makes_leader(
    a: Node,
    b: Node,
    acts: Seq<Action>,
    n: int,
    candidate: usize,
    term: u64,
    granted: bool,
    from: usize,
)
    requires
        vote_response_outcome(a, b, acts, n, candidate, term, granted, from),
        a.votes_received@.no_duplicates(),
    ensures
        b.role == Role::Leader && a.role != Role::Leader ==> {
            &&& a.role == Role::Candidate
            &&& granted
            &&& term == a.current_term
            &&& b.current_term == a.current_term
            &&& 2 * b.votes_received@.to_set().len() > n
        },
        a.role == Role::Candidate && term == a.current_term && granted && 2 * a.votes_received@.push(from).to_set().len() > n
            ==> b.role == Role::Leader,
{
    let votes = if a.votes_received@.contains(from) {
        a.votes_received@
    } else {
        a.votes_received@.push(from)
    };
    assert(votes.no_duplicates()) by {
        if !a.votes_received@.contains(from) {
            assert forall|i: int, j: int| 0 <= i < votes.len() && 0 <= j < votes.len() && i != j implies votes[i] != votes[j] by {
                if i < a.votes_received@.len() && j < a.votes_received@.len() {
                } else if i == a.votes_received@.len() {
                    assert(votes[j] == a.votes_received@[j]);
                } else {
                    assert(votes[i] == a.votes_received@[i]);
                }
            }
        }
    }
    votes.unique_seq_to_set();
    assert(votes.to_set() =~= a.votes_received@.push(from).to_set()) by {
        assert forall|v: usize| votes.to_set().contains(v) <==> a.votes_received@.push(from).to_set().contains(v) by {
            if a.votes_received@.push(from).to_set().contains(v) {
                let i = choose|i: int| 0 <= i < a.votes_received@.push(from).len() && a.votes_received@.push(from)[i] == v;
                if i < a.votes_received@.len() {
                    assert(votes.contains(v)) by {
                        if !a.votes_received@.contains(from) {
                            assert(votes[i] == v);
                        } else {
                            assert(votes[i] == v);
                        }
                    }
                } else {
                    if a.votes_received@.contains(from) {
                        assert(votes.contains(from));
                    } else {
                        assert(votes[votes.len() - 1] == from);
                    }
                }
            }
            if votes.to_set().contains(v) {
                let i = choose|i: int| 0 <= i < votes.len() && votes[i] == v;
                assert(a.votes_received@.push(from)[i] == v);
            }
        }
    }
    assert(2 * (n / 2) + 2 > n);
}

impl Cluster {
    /// A candidate counts a vote; a majority makes it leader.  Responses of
    /// a newer term make it step down; stale ones are ignored.
    pub fn on_request_vote_response(
        &mut self,
        candidate_id: usize,
        term: u64,
        vote_granted: bool,
        from: usize,
        actions: &mut Vec<Action>,
    )
        requires
            old(self).wf(),
            candidate_id < old(self).nodes@.len(),
        ensures
            old(self).evolves_to(final(self)),
            final(self).client_seq == old(self).client_seq,
            forall|i: int| 0 <= i < old(self).nodes@.len() && i != candidate_id ==> #[trigger] final(self).nodes@[i] == old(self).nodes@[i],
            final(actions)@.len() >= old(actions)@.len(),
            final(actions)@.subrange(0, old(actions)@.len() as int) == old(actions)@,
            vote_response_outcome(
                old(self).nodes@[candidate_id as int],
                final(self).nodes@[candidate_id as int],
                final(actions)@.skip(old(actions)@.len() as int),
                old(self).nodes@.len() as int,
                candidate_id,
                term,
                vote_granted,
                from,
            ),
    {
        proof {
            self.lemma_node_wf(candidate_id as int);
        }
        if term > self.nodes[candidate_id].current_term {
            self.become_follower(candidate_id, term, actions);
            assert(actions@.skip(old(actions)@.len() as int) =~= seq![Action::ResetFollowerTimers { node: candidate_id }]);
            return;
        }
        if self.nodes[candidate_id].role != Role::Candidate {
            return;
        }
        if term != self.nodes[candidate_id].current_term {
            return;
        }
        if vote_granted {
            let ghost before = self.nodes@;
            let mut node = self.take_node(candidate_id);
            let mut present = false;
            let mut k: usize = 0;
            while k < node.votes_received.len()
                invariant
                    k <= node.votes_received@.len(),
                    present == node.votes_received@.subrange(0, k as int).contains(from),
                decreases node.votes_received@.len() - k,
            {
                if node.votes_received[k] == from {
                    present = true;
                }
                proof {
                    let sub = node.votes_received@.subrange(0, k as int + 1);
                    assert(sub == node.votes_received@.subrange(0, k as int).push(node.votes_received@[k as int]));
                    if present && !node.votes_received@.subrange(0, k as int).contains(from) {
                        assert(sub[k as int] == from);
                    }
                }
                k += 1;
            }
            assert(node.votes_received@.subrange(0, node.votes_received@.len() as int) == node.votes_received@);
            if !present {
                node.votes_received.push(from);
            }
            proof {
                assert(node.votes_received@.contains(from)) by {
                    if !present {
                        assert(node.votes_received@.last() == from);
                    }
                }
                lemma_wf_update(before, candidate_id as int, node);
            }
            self.put_node(candidate_id, node);
            let votes = self.nodes[candidate_id].votes_received.len();
            if votes >= self.majority() {
                self.become_leader(candidate_id, actions);
            }
        }
    }

    /// The leader commits up to the highest index whose entry is of its
    /// current term and is matched by a majority (entries of older terms
    /// are committed only along with such an entry), and on progress
    /// re-sends entries to spread the news.
    pub fn advance_leader_commit(&mut self, leader_id: usize, actions: &mut Vec<Action>)
        requires
            old(self).wf(),
            leader_id < old(self).nodes@.len(),
        ensures
            old(self).evolves_to(final(self)),
            final(self).client_seq == old(self).client_seq,
            forall|i: int| 0 <= i < old(self).nodes@.len() && i != leader_id ==> #[trigger] final(self).nodes@[i] == old(self).nodes@[i],
            ({
                let a = old(self).nodes@[leader_id as int];
                let b = final(self).nodes@[leader_id as int];
                let target = commit_target(
                    a.log@,
                    a.match_index@,
                    a.current_term,
                    majority_of(old(self).nodes@.len() as int),
                    a.commit_index as int,
                    a.log@.len() as int,
                );
                &&& b == Node { commit_index: target as usize, ..a }
                &&& a.commit_index <= target
                &&& target == a.commit_index || target <= a.log@.len()
                &&& target == a.commit_index ==> final(actions)@ == old(actions)@
                &&& target > a.commit_index ==> {
                    &&& final(actions)@.len() > old(actions)@.len()
                    &&& final(actions)@.subrange(0, old(actions)@.len() as int) == old(actions)@
                    &&& final(actions)@[old(actions)@.len() as int] == (Action::Note {
                        event: RaftEvent::Commits { node: leader_id, index: target as usize },
                    })
                    &&& sends_entries_to_all(
                        final(actions)@.skip(old(actions)@.len() + 1int),
                        b,
                        leader_id,
                        old(self).nodes@.len() as int,
                    )
                }
            }),
            final(actions)@.len() >= old(actions)@.len(),
            final(actions)@.subrange(0, old(actions)@.len() as int) == old(actions)@,
    {
        proof {
            self.lemma_node_wf(leader_id as int);
        }
        let term = self.nodes[leader_id].current_term;
        let current_commit = self.nodes[leader_id].commit_index;
        let last_index = self.nodes[leader_id].log.len();
        let quorum = self.majority();
        let ghost a = self.nodes@[leader_id as int];
        let mut new_commit = current_commit;
        if current_commit < last_index {
            let mut index = current_commit + 1;
            while index <= last_index
                invariant
                    self.wf(),
                    self.nodes@ == old(self).nodes@,
                    a == self.nodes@[leader_id as int],
                    leader_id < self.nodes@.len(),
                    term == a.current_term,
                    last_index == a.log@.len(),
                    last_index < usize::MAX,
                    current_commit == a.commit_index,
                    quorum == majority_of(self.nodes@.len() as int),
                    current_commit + 1 <= index <= last_index + 1,
                    new_commit == commit_target(a.log@, a.match_index@, term, quorum as int, current_commit as int, index - 1),
                decreases last_index + 1 - index,
            {
                if self.nodes[leader_id].log[index - 1].term == term {
                    let replicated = count_replicated(&self.nodes[leader_id].match_index, index);
                    if replicated >= quorum {
                        new_commit = index;
                    }
                }
                proof {
                    lemma_commit_target_step(a.log@, a.match_index@, term, quorum as int, current_commit as int, index as int);
                }
                index += 1;
            }
        }
        proof {
            lemma_commit_target_bounds(a.log@, a.match_index@, term, quorum as int, current_commit as int, last_index as int);
        }
        if new_commit > current_commit {
            let ghost before = self.nodes@;
            let mut node = self.take_node(leader_id);
            node.commit_index = new_commit;
            proof {
                lemma_wf_update(before, leader_id as int, node);
            }
            self.put_node(leader_id, node);
            actions.push(Action::Note { event: RaftEvent::Commits { node: leader_id, index: new_commit } });
            let ghost mid = actions@;
            self.send_append_entries_to_all(leader_id, actions);
            assert(actions@.subrange(0, old(actions)@.len() as int) == mid.subrange(0, old(actions)@.len() as int));
            assert(actions@[old(actions)@.len() as int] == mid[old(actions)@.len() as int]);
            assert(actions@.skip(old(actions)@.len() + 1int) == actions@.skip(mid.len() as int));
        }
        proof {
            assert forall|i: int| 0 <= i < old(self).nodes@.len() implies #[trigger] self.nodes@[i].current_term
                >= old(self).nodes@[i].current_term by {
                if i != leader_id {
                    assert(self.nodes@[i] == old(self).nodes@[i]);
                }
            }
        }
    }
}

proof fn lemma_commit_target_step(log: Seq<LogEntry>, ms: Seq<usize>, term: u64, quorum: int, from: int, index: int)
    requires
        from < index,
    ensures
        commit_target(log, ms, term, quorum, from, index) == if log[index - 1].term == term && replicated_count(ms, index)
            >= quorum {
            index
        } else {
            commit_target(log, ms, term, quorum, from, index - 1)
        },
{
}

proof fn lemma_commit_target_bounds(log: Seq<LogEntry>, ms: Seq<usize>, term: u64, quorum: int, from: int, to: int)
    ensures
        commit_target(log, ms, term, quorum, from, to) >= from,
        to >= from ==> commit_target(log, ms, term, quorum, from, to) <= to,
    decreases to - from,
{
    if to > from {
        lemma_commit_target_bounds(log, ms, term, quorum, from, to - 1);
    }
}

/// How many match indices have reached `index`.
fn count_replicated(ms: &Vec<usize>, index: usize) -> (c: usize)
    ensures
        c == replicated_count(ms@, index as int),
{
    let mut c: usize = 0;
    let mut i: usize = 0;
    while i < ms.len()
        invariant
            i <= ms@.len(),
            c == replicated_count(ms@.subrange(0, i as int), index as int),
            c <= i,
        decreases ms@.len() - i,
    {
        assert(ms@.subrange(0, i + 1).drop_last() == ms@.subrange(0, i as int));
        if ms[i] >= index {
            c += 1;
        }
        i += 1;
    }
    assert(ms@.subrange(0, ms@.len() as int) == ms@);
    c
}


/// The commit index of a follower after taking `leader_commit`, with its
/// log `len` long afterwards.
pub open spec fn follower_commit(commit: usize, leader_commit: usize, len: int) -> int {
    if leader_commit > commit {
        if (leader_commit as int) < len {
            leader_commit as int
        } else {
            len
        }
    } else {
        commit as int
    }
}

/// A node steps down when it hears a leader of a newer term, or of its own
/// term while not a follower.
pub open spec fn steps_down(a: Node, term: u64) -> bool {
    term > a.current_term || a.role != Role::Follower
}

/// How a follower takes entries from a leader, from state `a` to state
/// `b`, with the actions `acts`.  A request of an older term is refused
/// with the node's term and log length.  Otherwise the node becomes a
/// follower of `term` (forgetting its vote and votes and restarting its
/// timers when `steps_down`, else only restarting its election timer);
/// when its log holds the entry before the new ones it merges them in and
/// moves its commit index towards the leader's, and it answers whether it
/// did and up to which index its log now matches.
pub open spec fn append_entries_outcome(
    a: Node,
    b: Node,
    acts: Seq<Action>,
    follower: usize,
    reply_to: usize,
    term: u64,
    prev: usize,
    prev_term: u64,
    entries: Seq<LogEntry>,
    leader_commit: usize,
) -> bool {
    let ok = prev_matches(a.log@, prev as int, prev_term);
    let merged = merge_entries(a.log@, prev as int, entries);
    let stepped = steps_down(a, term);
    if term < a.current_term {
        &&& b == a
        &&& acts == seq![
            Action::Send {
                from: follower,
                to: reply_to,
                rpc: Rpc::AppendEntriesResponse {
                    term: a.current_term,
                    success: false,
                    from: follower,
                    match_index: a.log@.len() as usize,
                },
            },
        ]
    } else {
        &&& b == (Node {
            role: Role::Follower,
            current_term: term,
            voted_for: if stepped { None } else { a.voted_for },
            votes_received: b.votes_received,
            log: b.log,
            commit_index: (if ok {
                follower_commit(a.commit_index, leader_commit, merged.len() as int)
            } else {
                a.commit_index as int
            }) as usize,
            ..a
        })
        &&& stepped ==> b.votes_received@.len() == 0
        &&& !stepped ==> b.votes_received == a.votes_received
        &&& b.log@ == (if ok { merged } else { a.log@ })
        &&& acts == seq![
            if stepped {
                Action::ResetFollowerTimers { node: follower }
            } else {
                Action::ResetElectionTimer { node: follower }
            },
            Action::Send {
                from: follower,
                to: reply_to,
                rpc: Rpc::AppendEntriesResponse {
                    term,
                    success: ok,
                    from: follower,
                    match_index: (if ok {
                        prev + entries.len()
                    } else {
                        a.log@.len() as int
                    }) as usize,
                },
            },
        ]
    }
}

/// Law (what a follower makes of an append request): it accepts exactly
/// when the request is of its term or newer and its log holds the entry
/// before the new ones with the leader's term for it; then its log keeps
/// every entry before them and holds entries of the new ones' terms at
/// their positions, and its commit index moves up to the leader's, at most
/// to the end of its log, and never down; a refused request leaves its log
/// and commit index alone.
pub proof fn lemma_append_entries_effect(
    a: Node,
    b: Node,
    acts: Seq<Action>,
    follower: usize,
    reply_to: usize,
    term: u64,
    prev: usize,
    prev_term: u64,
    entries: Seq<LogEntry>,
    leader_commit: usize,
)
    requires
        append_entries_outcome(a, b, acts, follower, reply_to, term, prev, prev_term, entries, leader_commit),
    ensures
        ({
            let fits = prev == 0 || (prev <= a.log@.len() && a.log@[prev - 1].term == prev_term);
            let accepted = acts.len() > 0 && (acts[acts.len() - 1] matches Action::Send {
                rpc: Rpc::AppendEntriesResponse { success, .. },
                ..
            } && success);
            &&& acts.len() > 0
            &&& accepted <==> (term >= a.current_term && fits)
            &&& accepted ==> {
                &&& b.log@.len() >= prev + entries.len()
                &&& forall|i: int| 0 <= i < prev ==> #[trigger] b.log@[i] == a.log@[i]
                &&& forall|i: int| 0 <= i < entries.len() ==> #[trigger] b.log@[prev + i].term == entries[i].term
                &&& b.commit_index == (if leader_commit > a.commit_index {
                    if leader_commit < b.log@.len() {
                        leader_commit as int
                    } else {
                        b.log@.len() as int
                    }
                } else {
                    a.commit_index as int
                })
            }
            &&& !accepted ==> b.log@ == a.log@ && b.commit_index == a.commit_index
        }),
{
    if term < a.current_term {
        assert(acts[acts.len() - 1] == acts[0]);
    } else {
        assert(acts[acts.len() - 1] == acts[1]);
        if prev_matches(a.log@, prev as int, prev_term) {
            lemma_merge_entries(a.log@, prev as int, entries);
            let merged = merge_entries(a.log@, prev as int, entries);
            assert forall|i: int| 0 <= i < prev implies #[trigger] b.log@[i] == a.log@[i] by {
                assert(merged.take(prev as int)[i] == a.log@.take(prev as int)[i]);
            }
        }
    }
}

impl Cluster {
    /// A follower takes entries from a leader.  A request of an older term
    /// is refused.  Otherwise the node steps down when the request is newer
    /// or it is not a follower (restarting its timers), else restarts its
    /// election timer; then, when its log holds the entry before the new
    /// ones, it merges them in, advances its commit index towards the
    /// leader's (at most to the end of its log) and reports the index up to
    /// which its log now matches.
    pub fn on_append_entries(
        &mut self,
        follower_id: usize,
        reply_to: usize,
        term: u64,
        leader_id: usize,
        prev_log_index: usize,
        prev_log_term: u64,
        entries: Vec<LogEntry>,
        leader_commit: usize,
        actions: &mut Vec<Action>,
    )
        requires
            old(self).wf(),
            follower_id < old(self).nodes@.len(),
            prev_log_index <= old(self).nodes@[follower_id as int].log@.len() ==> prev_log_index + entries@.len() < usize::MAX,
        ensures
            old(self).evolves_to(final(self)),
            final(self).client_seq == old(self).client_seq,
            forall|i: int| 0 <= i < old(self).nodes@.len() && i != follower_id ==> #[trigger] final(self).nodes@[i] == old(self).nodes@[i],
            ({
                let a = old(self).nodes@[follower_id as int];
                let b = final(self).nodes@[follower_id as int];
                let ok = prev_matches(a.log@, prev_log_index as int, prev_log_term);
                let merged = merge_entries(a.log@, prev_log_index as int, entries@);
                if term < a.current_term {
                    &&& b == a
                    &&& final(actions)@ == old(actions)@.push(Action::Send {
                        from: follower_id,
                        to: reply_to,
                        rpc: Rpc::AppendEntriesResponse {
                            term: a.current_term,
                            success: false,
                            from: follower_id,
                            match_index: a.log@.len() as usize,
                        },
                    })
                } else {
                    &&& b.role == Role::Follower
                    &&& b.current_term == term
                    &&& b.voted_for == (if steps_down(a, term) { None } else { a.voted_for })
                    &&& steps_down(a, term) ==> b.votes_received@.len() == 0
                    &&& !steps_down(a, term) ==> b.votes_received == a.votes_received
                    &&& b.log@ == (if ok { merged } else { a.log@ })
                    &&& b.commit_index == (if ok {
                        follower_commit(a.commit_index, leader_commit, merged.len() as int)
                    } else {
                        a.commit_index as int
                    })
                    &&& b.last_applied == a.last_applied
                    &&& b.state_machine == a.state_machine
                    &&& b.next_index == a.next_index
                    &&& b.match_index == a.match_index
                    &&& b.alive == a.alive
                    &&& final(actions)@ == old(actions)@ + seq![
                        if steps_down(a, term) {
                            Action::ResetFollowerTimers { node: follower_id }
                        } else {
                            Action::ResetElectionTimer { node: follower_id }
                        },
                        Action::Send {
                            from: follower_id,
                            to: reply_to,
                            rpc: Rpc::AppendEntriesResponse {
                                term,
                                success: ok,
                                from: follower_id,
                                match_index: (if ok {
                                    prev_log_index + entries@.len()
                                } else {
                                    a.log@.len() as int
                                }) as usize,
                            },
                        },
                    ]
                }
            }),
            append_entries_outcome(
                old(self).nodes@[follower_id as int],
                final(self).nodes@[follower_id as int],
                final(actions)@.subrange(old(actions)@.len() as int, final(actions)@.len() as int),
                follower_id,
                reply_to,
                term,
                prev_log_index,
                prev_log_term,
                entries@,
                leader_commit,
            ),
    {
        let ghost acts0 = actions@;
        proof {
            self.lemma_node_wf(follower_id as int);
        }
        if term < self.nodes[follower_id].current_term {
            let current_term = self.nodes[follower_id].current_term;
            let match_index = self.nodes[follower_id].log.len();
            actions.push(
                Action::Send {
                    from: follower_id,
                    to: reply_to,
                    rpc: Rpc::AppendEntriesResponse { term: current_term, success: false, from: follower_id, match_index },
                },
            );
            proof {
                assert(actions@.subrange(acts0.len() as int, actions@.len() as int) =~= seq![actions@.last()]);
            }
            return;
        }
        let ghost a = self.nodes@[follower_id as int];
        if term > self.nodes[follower_id].current_term || self.nodes[follower_id].role != Role::Follower {
            self.become_follower(follower_id, term, actions);
        } else {
            actions.push(Action::ResetElectionTimer { node: follower_id });
        }
        proof {
            self.lemma_node_wf(follower_id as int);
        }
        let ghost before = self.nodes@;
        let mut node = self.take_node(follower_id);
        let mut success = false;
        let mut matched = node.log.len();
        let prev_ok = prev_log_index == 0 || (prev_log_index <= node.log.len() && node.log[prev_log_index - 1].term
            == prev_log_term);
        if prev_ok {
            success = true;
            let ghost start = node.log@;
            let ghost nd0 = node;
            let mut insert_at = prev_log_index;
            let mut k: usize = 0;
            assert(entries@.skip(0) == entries@);
            while k < entries.len()
                invariant
                    k <= entries@.len(),
                    insert_at == prev_log_index + k,
                    node == (Node { log: node.log, ..nd0 }),
                    prev_log_index + entries@.len() < usize::MAX,
                    start.len() < usize::MAX,
                    insert_at <= node.log@.len(),
                    node.log@.len() <= start.len() || node.log@.len() <= insert_at,
                    merge_entries(node.log@, insert_at as int, entries@.skip(k as int)) == merge_entries(
                        start,
                        prev_log_index as int,
                        entries@,
                    ),
                decreases entries@.len() - k,
            {
                let entry = entries[k].duplicate();
                proof {
                    assert(entries@.skip(k as int)[0] == entries@[k as int]);
                    assert(entries@.skip(k as int).drop_first() == entries@.skip(k as int + 1));
                }
                if insert_at < node.log.len() {
                    if node.log[insert_at].term != entry.term {
                        node.log.truncate(insert_at);
                        node.log.push(entry);
                    }
                } else {
                    node.log.push(entry);
                }
                insert_at += 1;
                k += 1;
            }
            proof {
                assert(entries@.skip(entries@.len() as int).len() == 0);
            }
            matched = insert_at;
            if leader_commit > node.commit_index {
                let len = node.log.len();
                node.commit_index = if leader_commit < len {
                    leader_commit
                } else {
                    len
                };
            }
        }
        proof {
            lemma_wf_update(before, follower_id as int, node);
        }
        self.put_node(follower_id, node);
        let response_term = self.nodes[follower_id].current_term;
        actions.push(
            Action::Send {
                from: follower_id,
                to: reply_to,
                rpc: Rpc::AppendEntriesResponse { term: response_term, success, from: follower_id, match_index: matched },
            },
        );
        proof {
            assert(actions@.subrange(acts0.len() as int, actions@.len() as int) =~= seq![
                actions@[actions@.len() - 2],
                actions@.last(),
            ]);
            assert forall|i: int| 0 <= i < old(self).nodes@.len() implies #[trigger] self.nodes@[i].current_term
                >= old(self).nodes@[i].current_term by {
                if i != follower_id {
                    assert(self.nodes@[i] == old(self).nodes@[i]);
                }
            }
        }
    }
}


/// How a leader takes a follower's answer, from state `a` to state `b`,
/// with the actions `acts`, in a cluster of `n`.  An answer of a newer term
/// makes it a follower of that term with no vote and no votes gathered
/// (restarting its timers); one that is stale, or reaches a node that is no
/// longer leader, changes nothing.  A success records the follower's match
/// index and the next index past it and commits up to `commit_target`,
/// noting and spreading any progress; a refusal steps the follower's next
/// index back by one (not below 1) and sends entries again.
pub open spec fn append_response_outcome(
    a: Node,
    b: Node,
    acts: Seq<Action>,
    n: int,
    leader: usize,
    term: u64,
    success: bool,
    from: usize,
    match_index: usize,
) -> bool {
    let ms = a.match_index@.update(from as int, match_index);
    let back = if a.next_index@[from as int] > 1 {
        a.next_index@[from as int] - 1
    } else {
        a.next_index@[from as int] as int
    };
    let target = commit_target(a.log@, ms, a.current_term, majority_of(n), a.commit_index as int, a.log@.len() as int);
    if term > a.current_term {
        &&& b == (Node {
            role: Role::Follower,
            current_term: term,
            voted_for: None,
            votes_received: b.votes_received,
            ..a
        })
        &&& b.votes_received@.len() == 0
        &&& acts == seq![Action::ResetFollowerTimers { node: leader }]
    } else if a.role != Role::Leader || term != a.current_term {
        &&& b == a
        &&& acts.len() == 0
    } else if success {
        &&& b == (Node {
            match_index: b.match_index,
            next_index: b.next_index,
            commit_index: target as usize,
            ..a
        })
        &&& b.match_index@ == ms
        &&& b.next_index@ == a.next_index@.update(from as int, (match_index + 1) as usize)
        &&& a.commit_index <= target
        &&& target == a.commit_index ==> acts.len() == 0
        &&& target > a.commit_index ==> {
            &&& acts.len() >= 1
            &&& acts[0] == (Action::Note { event: RaftEvent::Commits { node: leader, index: target as usize } })
            &&& sends_entries_to_all(acts.skip(1), b, leader, n)
        }
    } else {
        &&& b == (Node { next_index: b.next_index, ..a })
        &&& b.next_index@ == a.next_index@.update(from as int, back as usize)
        &&& !b.alive ==> acts.len() == 0
        &&& b.alive ==> acts.len() == 1 && is_append_entries(acts[0], b, leader, from)
    }
}

/// The nodes whose match index in `ms` has reached `index`.
pub open spec fn matched_by(ms: Seq<usize>, index: int) -> Set<int> {
    Set::new(|i: int| 0 <= i < ms.len() && ms[i] >= index)
}

proof fn lemma_replicated_count_is_matched(ms: Seq<usize>, index: int)
    ensures
        matched_by(ms, index).finite(),
        replicated_count(ms, index) == matched_by(ms, index).len(),
    decreases ms.len(),
{
    if ms.len() == 0 {
        assert(matched_by(ms, index) =~= Set::<int>::empty());
    } else {
        let rest = ms.drop_last();
        lemma_replicated_count_is_matched(rest, index);
        let last = ms.len() - 1;
        if ms.last() >= index {
            assert(matched_by(ms, index) =~= matched_by(rest, index).insert(last));
            assert(!matched_by(rest, index).contains(last));
        } else {
            assert(matched_by(ms, index) =~= matched_by(rest, index));
        }
    }
}

/// Law (the leader commits what a majority holds of its own term, and as
/// far as that goes): when a leader's answer handling raises its commit
/// index, the new index lies within its log, its entry there is of the
/// leader's current term, and more than half of the nodes have matched it;
/// and no later entry of its log of that term has been matched by more
/// than half of them.
pub proof fn lemma_leader_commits_majority_entries(
    a: Node,
    b: Node,
    acts: Seq<Action>,
    n: int,
    leader: usize,
    term: u64,
    success: bool,
    from: usize,
    match_index: usize,
)
    requires
        append_response_outcome(a, b, acts, n, leader, term, success, from, match_index),
        a.match_index@.len() == n,
        from < n,
    ensures
        b.commit_index > a.commit_index ==> {
            &&& b.commit_index <= a.log@.len()
            &&& a.log@[b.commit_index - 1].term == a.current_term
            &&& 2 * matched_by(b.match_index@, b.commit_index as int).len() > n
        },
        b.commit_index >= a.commit_index,
        a.role == Role::Leader && term == a.current_term && success ==> forall|k: int|
            b.commit_index < k <= a.log@.len() && k > a.commit_index && a.log@[k - 1].term == a.current_term ==> 2
                * #[trigger] matched_by(b.match_index@, k).len() <= n,
{
    let ms = a.match_index@.update(from as int, match_index);
    let q = majority_of(n);
    if a.role == Role::Leader && term == a.current_term && success {
        lemma_commit_target_sound(a.log@, ms, a.current_term, q, a.commit_index as int, a.log@.len() as int);
        lemma_commit_target_maximal(a.log@, ms, a.current_term, q, a.commit_index as int, a.log@.len() as int);
        let target = commit_target(a.log@, ms, a.current_term, q, a.commit_index as int, a.log@.len() as int);
        assert(a.log@.len() == a.log.len());
        assert(target > a.commit_index ==> target <= a.log@.len());
        assert(target >= a.commit_index);
        assert(b.commit_index == target);
        assert(b.match_index@ == ms);
        lemma_replicated_count_is_matched(ms, b.commit_index as int);
        if target > a.commit_index {
            assert(replicated_count(ms, target) >= q);
            assert(2 * (n / 2) + 2 > n);
        }
        assert forall|k: int|
            b.commit_index < k <= a.log@.len() && k > a.commit_index && a.log@[k - 1].term == a.current_term implies 2
                * #[trigger] matched_by(b.match_index@, k).len() <= n by {
            lemma_replicated_count_is_matched(ms, k);
            assert(target < k <= a.log@.len() && k > a.commit_index);
            assert(!(a.log@[k - 1].term == a.current_term && replicated_count(ms, k) >= q));
            assert(2 * (n / 2) + 2 > n);
        }
    }
}

impl Cluster {
    /// The leader takes a follower's answer.  An answer of a newer term
    /// makes it step down; one that is stale, or reaches a node that is no
    /// longer leader, is ignored.  A success records the follower's match
    /// index (and the next index past it) and tries to advance the commit
    /// index; a refusal steps the follower's next index back by one (not
    /// below 1) and sends entries again.
    pub fn on_append_entries_response(
        &mut self,
        leader_id: usize,
        term: u64,
        success: bool,
        from: usize,
        match_index: usize,
        actions: &mut Vec<Action>,
    )
        requires
            old(self).wf(),
            leader_id < old(self).nodes@.len(),
            (old(self).nodes@[leader_id as int].role == Role::Leader && term == old(self).nodes@[leader_id as int].current_term)
                ==> from < old(self).nodes@.len() && (success ==> match_index < usize::MAX),
        ensures
            old(self).evolves_to(final(self)),
            final(self).client_seq == old(self).client_seq,
            forall|i: int| 0 <= i < old(self).nodes@.len() && i != leader_id ==> #[trigger] final(self).nodes@[i] == old(self).nodes@[i],
            final(actions)@.len() >= old(actions)@.len(),
            final(actions)@.subrange(0, old(actions)@.len() as int) == old(actions)@,
            append_response_outcome(
                old(self).nodes@[leader_id as int],
                final(self).nodes@[leader_id as int],
                final(actions)@.skip(old(actions)@.len() as int),
                old(self).nodes@.len() as int,
                leader_id,
                term,
                success,
                from,
                match_index,
            ),
    {
        proof {
            self.lemma_node_wf(leader_id as int);
        }
        if term > self.nodes[leader_id].current_term {
            self.become_follower(leader_id, term, actions);
            assert(actions@.skip(old(actions)@.len() as int) =~= seq![Action::ResetFollowerTimers { node: leader_id }]);
            return;
        }
        if self.nodes[leader_id].role != Role::Leader {
            return;
        }
        if term != self.nodes[leader_id].current_term {
            return;
        }
        let ghost before = self.nodes@;
        let mut node = self.take_node(leader_id);
        if success {
            node.match_index.set(from, match_index);
            node.next_index.set(from, match_index + 1);
            proof {
                assert(node.match_index@ == before[leader_id as int].match_index@.update(from as int, match_index));
                lemma_wf_update(before, leader_id as int, node);
            }
            self.put_node(leader_id, node);
            let ghost mid = self.nodes@;
            let ghost acts = actions@;
            self.advance_leader_commit(leader_id, actions);
            proof {
                let base = old(actions)@.len() as int;
                let tail = actions@.skip(base);
                if actions@.len() > base {
                    assert(tail[0] == actions@[base]);
                    assert(tail.skip(1) =~= actions@.skip(base + 1));
                }
                assert forall|i: int| 0 <= i < old(self).nodes@.len() implies #[trigger] self.nodes@[i].current_term
                    >= old(self).nodes@[i].current_term by {
                    if i != leader_id {
                        assert(self.nodes@[i] == mid[i]);
                    }
                }
            }
        } else {
            let cur = node.next_index[from];
            if cur > 1 {
                node.next_index.set(from, cur - 1);
            }
            proof {
                assert(node.next_index@ =~= before[leader_id as int].next_index@.update(
                    from as int,
                    if cur > 1 { (cur - 1) as usize } else { cur },
                ));
                lemma_wf_update(before, leader_id as int, node);
            }
            self.put_node(leader_id, node);
            self.send_append_entries(leader_id, from, actions);
            proof {
                if self.nodes@[leader_id as int].alive {
                    assert(actions@.skip(old(actions)@.len() as int)[0] == actions@.last());
                }
                assert forall|i: int| 0 <= i < old(self).nodes@.len() implies #[trigger] self.nodes@[i].current_term
                    >= old(self).nodes@[i].current_term by {
                    if i != leader_id {
                        assert(self.nodes@[i] == old(self).nodes@[i]);
                    }
                }
            }
        }
    }
}


/// How node `to` of a cluster of `n` handles `rpc` from `from`, from state
/// `a` to state `b`, with the actions `acts`.
pub open spec fn handles(a: Node, b: Node, acts: Seq<Action>, n: int, from: usize, to: usize, rpc: Rpc) -> bool {
    match rpc {
        Rpc::RequestVote { term, candidate_id, last_log_index, last_log_term } => vote_request_outcome(
            a,
            b,
            acts,
            to,
            from,
            term,
            candidate_id,
            last_log_index,
            last_log_term,
        ),
        Rpc::RequestVoteResponse { term, vote_granted, from: voter } => vote_response_outcome(
            a,
            b,
            acts,
            n,
            to,
            term,
            vote_granted,
            voter,
        ),
        Rpc::AppendEntries { term, leader_id, prev_log_index, prev_log_term, entries, leader_commit } =>
            append_entries_outcome(
            a,
            b,
            acts,
            to,
            from,
            term,
            prev_log_index,
            prev_log_term,
            entries@,
            leader_commit,
        ),
        Rpc::AppendEntriesResponse { term, success, from: follower, match_index } => append_response_outcome(
            a,
            b,
            acts,
            n,
            to,
            term,
            success,
            follower,
            match_index,
        ),
    }
}

/// Cluster `b`, with the actions `acts`, is cluster `a` after node `to`
/// handled `rpc` from `from`: a message for a node that is down or not in
/// the cluster is dropped; otherwise only node `to` changes, as `handles`
/// says.
pub open spec fn delivered(a: Cluster, b: Cluster, acts: Seq<Action>, from: usize, to: usize, rpc: Rpc) -> bool {
    &&& a.evolves_to(&b)
    &&& b.client_seq == a.client_seq
    &&& (to >= a.nodes@.len() || !a.nodes@[to as int].alive) ==> b == a && acts.len() == 0
    &&& (to < a.nodes@.len() && a.nodes@[to as int].alive) ==> {
        &&& forall|i: int| 0 <= i < a.nodes@.len() && i != to ==> #[trigger] b.nodes@[i] == a.nodes@[i]
        &&& handles(a.nodes@[to as int], b.nodes@[to as int], acts, a.nodes@.len() as int, from, to, rpc)
    }
}

impl Cluster {
    /// Hands `rpc`, sent by `from`, to node `to`; a message for a node
    /// that is down or not in the cluster is dropped.
    pub fn deliver(&mut self, from: usize, to: usize, rpc: Rpc) -> (actions: Vec<Action>)
        requires
            old(self).wf(),
            to < old(self).nodes@.len() && old(self).nodes@[to as int].alive ==> rpc_ok(
                rpc,
                old(self).nodes@[to as int],
                old(self).nodes@.len() as int,
            ),
        ensures
            delivered(*old(self), *final(self), actions@, from, to, rpc),
    {
        let mut actions: Vec<Action> = Vec::new();
        if to >= self.nodes.len() || !self.nodes[to].alive {
            proof {
                assert forall|i: int| 0 <= i < self.nodes@.len() implies #[trigger] self.nodes@[i].current_term
                    >= old(self).nodes@[i].current_term by {}
            }
            return actions;
        }
        let ghost r = rpc;
        let ghost a = self.nodes@[to as int];
        let ghost n = self.nodes@.len() as int;
        match rpc {
            Rpc::RequestVote { term, candidate_id, last_log_index, last_log_term } => {
                self.on_request_vote(to, from, term, candidate_id, last_log_index, last_log_term, &mut actions);
                assert(actions@.skip(0) =~= actions@);
                assert(handles(a, self.nodes@[to as int], actions@, n, from, to, r));
            },
            Rpc::RequestVoteResponse { term, vote_granted, from: voter } => {
                self.on_request_vote_response(to, term, vote_granted, voter, &mut actions);
                assert(actions@.skip(0) =~= actions@);
                assert(handles(a, self.nodes@[to as int], actions@, n, from, to, r));
            },
            Rpc::AppendEntries { term, leader_id, prev_log_index, prev_log_term, entries, leader_commit } => {
                self.on_append_entries(
                    to,
                    from,
                    term,
                    leader_id,
                    prev_log_index,
                    prev_log_term,
                    entries,
                    leader_commit,
                    &mut actions,
                );
                assert(actions@.skip(0) =~= actions@);
                assert(term >= a.current_term ==> self.nodes@[to as int].role == Role::Follower);
                assert(term >= a.current_term ==> self.nodes@[to as int].current_term == term);
                assert(term >= a.current_term ==> self.nodes@[to as int].id == a.id);
                assert(term >= a.current_term ==> self.nodes@[to as int].next_index == a.next_index);
                assert(handles(a, self.nodes@[to as int], actions@, n, from, to, r));
            },
            Rpc::AppendEntriesResponse { term, success, from: follower, match_index } => {
                self.on_append_entries_response(to, term, success, follower, match_index, &mut actions);
                assert(actions@.skip(0) =~= actions@);
                assert(handles(a, self.nodes@[to as int], actions@, n, from, to, r));
            },
        }
        actions
    }
}


/// Cluster `after` is cluster `before` after node `node_id` applied its
/// committed entries.
pub open spec fn entries_applied(before: Cluster, after: Cluster, node_id: usize) -> bool {
    &&& before.evolves_to(&after)
    &&& after.client_seq == before.client_seq
    &&& forall|i: int| 0 <= i < before.nodes@.len() && i != node_id ==> #[trigger] after.nodes@[i] == before.nodes@[i]
    &&& ({
        let a = before.nodes@[node_id as int];
        let b = after.nodes@[node_id as int];
        if a.alive && a.last_applied < a.commit_index {
            &&& b == (Node { last_applied: a.commit_index, state_machine: b.state_machine, ..a })
            &&& b.state_machine.view() == apply_all(
                a.state_machine.view(),
                a.log@.subrange(a.last_applied as int, a.commit_index as int),
            )
        } else {
            b == a
        }
    })
}

/// Cluster `after`, with the actions `acts`, is cluster `before` after a
/// client proposed its next command.
#[verifier::opaque]
pub open spec fn client_command_handled(before: Cluster, after: Cluster, acts: Seq<Action>) -> bool {
    &&& before.evolves_to(&after)
    &&& match before.leader_id_spec() {
        None => after == before && acts == seq![Action::Note { event: RaftEvent::ClientRejected }],
        Some(l) => {
            let a = before.nodes@[l as int];
            let b = after.nodes@[l as int];
            let seq_no = (before.client_seq + 1) as u64;
            let len = a.log@.len() + 1;
            &&& after.client_seq == seq_no
            &&& forall|i: int| 0 <= i < before.nodes@.len() && i != l ==> #[trigger] after.nodes@[i] == before.nodes@[i]
            &&& b == (Node { log: b.log, match_index: b.match_index, next_index: b.next_index, ..a })
            &&& b.log@.len() == len
            &&& b.log@.drop_last() == a.log@
            &&& b.log@.last().term == a.current_term
            &&& b.log@.last().command@ == client_command(seq_no)
            &&& b.match_index@ == a.match_index@.update(l as int, len as usize)
            &&& b.next_index@ == a.next_index@.update(l as int, (len + 1) as usize)
            &&& acts.len() >= 1
            &&& acts[0] matches Action::Note { event: RaftEvent::ClientCommand { node, command } }
                && node == l && command@ == client_command(seq_no)
            &&& sends_entries_to_all(acts.skip(1), b, l, before.nodes@.len() as int)
        }
    }
}

/// Law (a client request carries its own number): when the cluster has a
/// leader, a client request raises the client sequence number by one and
/// appends to the leader's log one entry of its current term whose
/// command, applied to any state, adds that new number to the counter
/// `counter` (wrapping) and changes nothing else, so that two requests
/// count differently; numbers beyond the largest `i64` cannot be read as
/// one and are left out.
pub proof fn lemma_proposal_carries_its_number(a: Cluster, b: Cluster, acts: Seq<Action>, state: Map<Seq<char>, i64>)
    requires
        client_command_handled(a, b, acts),
        a.leader_id_spec() is Some,
        a.client_seq < i64::MAX,
    ensures
        ({
            let l = a.leader_id_spec()->0 as int;
            let key = seq!['c', 'o', 'u', 'n', 't', 'e', 'r'];
            let old_value = if state.contains_key(key) {
                state[key]
            } else {
                0
            };
            &&& b.client_seq == a.client_seq + 1
            &&& b.nodes@[l].log@.len() == a.nodes@[l].log@.len() + 1
            &&& b.nodes@[l].log@.drop_last() == a.nodes@[l].log@
            &&& b.nodes@[l].log@.last().term == a.nodes@[l].current_term
            &&& apply_spec(state, b.nodes@[l].log@.last().command@) == state.insert(
                key,
                vstd::wrapping::i64_specs::wrapping_add(old_value, b.client_seq as i64),
            )
        }),
{
    reveal(client_command_handled);
    lemma_client_command_adds_its_number(state, (a.client_seq + 1) as u64);
}

/// Cluster `after`, with the actions `acts`, is cluster `before` after node
/// `id` was crashed or restarted.
pub open spec fn toggled(before: Cluster, after: Cluster, acts: Seq<Action>, id: usize) -> bool {
    &&& before.evolves_to(&after)
    &&& after.client_seq == before.client_seq
    &&& id >= before.nodes@.len() ==> after == before && acts.len() == 0
    &&& id < before.nodes@.len() ==> {
        let a = before.nodes@[id as int];
        let b = after.nodes@[id as int];
        &&& forall|i: int| 0 <= i < before.nodes@.len() && i != id ==> #[trigger] after.nodes@[i] == before.nodes@[i]
        &&& b.votes_received@.len() == 0
        &&& if a.alive {
            &&& b == (Node { alive: false, role: Role::Follower, votes_received: b.votes_received, ..a })
            &&& acts == seq![
                Action::ClearTimers { node: id },
                Action::Note { event: RaftEvent::Crashed { node: id } },
            ]
        } else {
            &&& b == (Node { alive: true, role: Role::Follower, voted_for: None, votes_received: b.votes_received, ..a })
            &&& acts == seq![
                Action::ResetFollowerTimers { node: id },
                Action::Note { event: RaftEvent::Restarted { node: id } },
            ]
        }
    }
}

/// Cluster `after`, with the actions `acts`, is cluster `before` after the
/// election timer of node `id` ran out.
pub open spec fn election_timed_out(before: Cluster, after: Cluster, acts: Seq<Action>, id: usize) -> bool {
    &&& before.evolves_to(&after)
    &&& after.client_seq == before.client_seq
    &&& !(before.nodes@[id as int].alive && before.nodes@[id as int].role != Role::Leader) ==> after == before
        && acts.len() == 0
    &&& (before.nodes@[id as int].alive && before.nodes@[id as int].role != Role::Leader) ==> {
        &&& election_outcome(before.nodes@[id as int], after.nodes@[id as int], acts, id, before.nodes@.len() as int)
        &&& forall|i: int| 0 <= i < before.nodes@.len() && i != id ==> #[trigger] after.nodes@[i] == before.nodes@[i]
    }
}

impl Cluster {
    /// Node `node_id`, when up, applies the committed entries it has not
    /// applied yet, in order, to its state machine.
    pub fn apply_committed_entries(&mut self, node_id: usize)
        requires
            old(self).wf(),
            node_id < old(self).nodes@.len(),
            ({
                let a = old(self).nodes@[node_id as int];
                a.alive && a.last_applied < a.commit_index ==> a.commit_index <= a.log@.len()
            }),
        ensures
            entries_applied(*old(self), *final(self), node_id),
    {
        proof {
            self.lemma_node_wf(node_id as int);
        }
        if !self.nodes[node_id].alive {
            proof {
                assert forall|i: int| 0 <= i < self.nodes@.len() implies #[trigger] self.nodes@[i].current_term
                    >= old(self).nodes@[i].current_term by {}
            }
            return;
        }
        let ghost before = self.nodes@;
        let ghost a = self.nodes@[node_id as int];
        let mut node = self.take_node(node_id);
        proof {
            if a.last_applied < a.commit_index {
                assert(a.log@.subrange(a.last_applied as int, a.last_applied as int) =~= Seq::<LogEntry>::empty());
            }
        }
        while node.last_applied < node.commit_index
            invariant
                node == (Node { last_applied: node.last_applied, state_machine: node.state_machine, ..a }),
                node.state_machine.wf(),
                a.last_applied < a.commit_index ==> a.commit_index <= a.log@.len(),
                a.last_applied <= node.last_applied,
                a.last_applied < a.commit_index ==> node.last_applied <= a.commit_index,
                a.last_applied >= a.commit_index ==> node.last_applied == a.last_applied,
                a.last_applied >= a.commit_index ==> node.state_machine == a.state_machine,
                a.last_applied < a.commit_index ==> node.state_machine.view() == apply_all(
                    a.state_machine.view(),
                    a.log@.subrange(a.last_applied as int, node.last_applied as int),
                ),
            decreases node.commit_index - node.last_applied,
        {
            let i = node.last_applied;
            let command = node.log[i].command.clone();
            proof {
                let done = a.log@.subrange(a.last_applied as int, i as int);
                let next = a.log@.subrange(a.last_applied as int, i + 1);
                assert(next.drop_last() == done);
                assert(next.last() == a.log@[i as int]);
            }
            apply_command(&mut node.state_machine, command.as_str());
            node.last_applied = i + 1;
        }
        proof {
            lemma_wf_update(before, node_id as int, node);
        }
        self.put_node(node_id, node);
        proof {
            assert forall|i: int| 0 <= i < old(self).nodes@.len() implies #[trigger] self.nodes@[i].current_term
                >= old(self).nodes@[i].current_term by {
                if i != node_id {
                    assert(self.nodes@[i] == old(self).nodes@[i]);
                }
            }
        }
    }

    /// The first node that is up and leads, if any.
    pub fn leader_id(&self) -> (r: Option<usize>)
        requires
            self.wf(),
        ensures
            match r {
                Some(i) => {
                    &&& i < self.nodes@.len()
                    &&& self.nodes@[i as int].alive
                    &&& self.nodes@[i as int].role == Role::Leader
                    &&& forall|j: int| 0 <= j < i ==> !(#[trigger] self.nodes@[j].alive && self.nodes@[j].role == Role::Leader)
                },
                None => forall|j: int|
                    0 <= j < self.nodes@.len() ==> !(#[trigger] self.nodes@[j].alive && self.nodes@[j].role == Role::Leader),
            },
            r == self.leader_id_spec(),
    {
        let mut i: usize = 0;
        while i < self.nodes.len()
            invariant
                self.wf(),
                i <= self.nodes@.len(),
                forall|j: int| 0 <= j < i ==> !(#[trigger] self.nodes@[j].alive && self.nodes@[j].role == Role::Leader),
            decreases self.nodes@.len() - i,
        {
            if self.nodes[i].alive && self.nodes[i].role == Role::Leader {
                proof {
                    self.lemma_node_wf(i as int);
                    let k = choose|k: int|
                        0 <= k < self.nodes@.len() && #[trigger] self.nodes@[k].alive && self.nodes@[k].role == Role::Leader
                            && forall|j: int| 0 <= j < k ==> !(#[trigger] self.nodes@[j].alive && self.nodes@[j].role == Role::Leader);
                    assert(self.nodes@[i as int].alive);
                    assert(k == i) by {
                        if k < i {
                            assert(self.nodes@[k].alive);
                        }
                        if i < k {
                            assert(self.nodes@[i as int].alive);
                        }
                    }
                }
                return Some(self.nodes[i].id);
            }
            i += 1;
        }
        None
    }
}


impl Cluster {
    /// A client sends the next `counter += N` command to the leader (the
    /// first node that is up and leads): it appends the command to its log
    /// in its term, counts its own copy as matched, and sends entries to
    /// every other node.  Without a leader the request is refused.
    pub fn propose_client_command(&mut self) -> (actions: Vec<Action>)
        requires
            old(self).wf(),
            old(self).client_seq < u64::MAX,
            forall|i: int| 0 <= i < old(self).nodes@.len() ==> #[trigger] old(self).nodes@[i].log@.len() + 2 < usize::MAX,
        ensures
            client_command_handled(*old(self), *final(self), actions@),
    {
        proof {
            reveal(client_command_handled);
        }
        let mut actions: Vec<Action> = Vec::new();
        let leader = self.leader_id();
        match leader {
            None => {
                actions.push(Action::Note { event: RaftEvent::ClientRejected });
                proof {
                    assert forall|i: int| 0 <= i < self.nodes@.len() implies #[trigger] self.nodes@[i].current_term
                        >= old(self).nodes@[i].current_term by {}
                }
                actions
            },
            Some(leader_id) => {
                proof {
                    self.lemma_node_wf(leader_id as int);
                }
                self.client_seq = self.client_seq + 1;
                let digits = string_from_chars(&decimal_chars(self.client_seq));
                let command = String::from_str("counter += ").concat(digits.as_str());
                proof {
                    reveal_strlit("counter += ");
                }
                let term = self.nodes[leader_id].current_term;
                let ghost before = self.nodes@;
                let mut node = self.take_node(leader_id);
                node.log.push(LogEntry { term, command: command.clone() });
                let index = node.log.len();
                node.match_index.set(leader_id, index);
                node.next_index.set(leader_id, index + 1);
                proof {
                    assert(node.log@.drop_last() == before[leader_id as int].log@);
                    lemma_wf_update(before, leader_id as int, node);
                }
                self.put_node(leader_id, node);
                proof {
                    assert(command@ == client_command(self.client_seq));
                }
                actions.push(Action::Note { event: RaftEvent::ClientCommand { node: leader_id, command } });
                let ghost mid = actions@;
                self.send_append_entries_to_all(leader_id, &mut actions);
                proof {
                    assert(actions@.subrange(0, 1)[0] == mid[0]);
                    assert forall|i: int| 0 <= i < old(self).nodes@.len() implies #[trigger] self.nodes@[i].current_term
                        >= old(self).nodes@[i].current_term by {
                        if i != leader_id {
                            assert(self.nodes@[i] == old(self).nodes@[i]);
                        }
                    }
                }
                actions
            },
        }
    }

    /// The first node that is up and leads, if any.
    pub open spec fn leader_id_spec(&self) -> Option<usize> {
        if exists|i: int| 0 <= i < self.nodes@.len() && #[trigger] self.nodes@[i].alive && self.nodes@[i].role == Role::Leader {
            let i = choose|i: int|
                0 <= i < self.nodes@.len() && #[trigger] self.nodes@[i].alive && self.nodes@[i].role == Role::Leader && forall|j: int|
                    0 <= j < i ==> !(#[trigger] self.nodes@[j].alive && self.nodes@[j].role == Role::Leader);
            Some(i as usize)
        } else {
            None
        }
    }
}


/// The actions `acts` of cluster `c` after the heartbeat timer of node `id`
/// ran out: a leader that is up sends entries to every other node; any
/// other node does nothing.
pub open spec fn heartbeat_sent(c: Cluster, acts: Seq<Action>, id: usize) -> bool {
    &&& !(c.nodes@[id as int].alive && c.nodes@[id as int].role == Role::Leader) ==> acts.len() == 0
    &&& (c.nodes@[id as int].alive && c.nodes@[id as int].role == Role::Leader) ==> sends_entries_to_all(
        acts,
        c.nodes@[id as int],
        id,
        c.nodes@.len() as int,
    )
}

impl Cluster {
    /// Crashes a running node or restarts a crashed one.  A crash makes it
    /// a follower with no votes gathered and restarts its timers; a restart
    /// brings it back as a follower of the same term with no vote and fresh
    /// timers.  An id outside the cluster changes nothing.
    pub fn toggle_node(&mut self, id: usize) -> (actions: Vec<Action>)
        requires
            old(self).wf(),
        ensures
            toggled(*old(self), *final(self), actions@, id),
    {
        let mut actions: Vec<Action> = Vec::new();
        if id >= self.nodes.len() {
            proof {
                assert forall|i: int| 0 <= i < self.nodes@.len() implies #[trigger] self.nodes@[i].current_term
                    >= old(self).nodes@[i].current_term by {}
            }
            return actions;
        }
        proof {
            self.lemma_node_wf(id as int);
        }
        let ghost before = self.nodes@;
        let mut node = self.take_node(id);
        node.alive = !node.alive;
        if node.alive {
            proof {
                lemma_wf_update(before, id as int, node);
            }
            self.put_node(id, node);
            let term = self.nodes[id].current_term;
            self.become_follower(id, term, &mut actions);
            actions.push(Action::Note { event: RaftEvent::Restarted { node: id } });
            assert(actions@ =~= seq![
                Action::ResetFollowerTimers { node: id },
                Action::Note { event: RaftEvent::Restarted { node: id } },
            ]);
        } else {
            node.role = Role::Follower;
            node.votes_received.clear();
            proof {
                lemma_wf_update(before, id as int, node);
            }
            self.put_node(id, node);
            actions.push(Action::ClearTimers { node: id });
            actions.push(Action::Note { event: RaftEvent::Crashed { node: id } });
            assert(actions@ =~= seq![
                Action::ClearTimers { node: id },
                Action::Note { event: RaftEvent::Crashed { node: id } },
            ]);
        }
        proof {
            assert forall|i: int| 0 <= i < old(self).nodes@.len() implies #[trigger] self.nodes@[i].current_term
                >= old(self).nodes@[i].current_term by {
                if i != id {
                    assert(self.nodes@[i] == old(self).nodes@[i]);
                }
            }
        }
        actions
    }

    /// The election timer of node `id` ran out: a node that is up and not
    /// leading starts an election.
    pub fn on_election_timeout(&mut self, id: usize) -> (actions: Vec<Action>)
        requires
            old(self).wf(),
            id < old(self).nodes@.len(),
            old(self).nodes@[id as int].current_term < u64::MAX,
        ensures
            election_timed_out(*old(self), *final(self), actions@, id),
    {
        if self.nodes[id].alive && self.nodes[id].role != Role::Leader {
            self.start_election(id)
        } else {
            proof {
                assert forall|i: int| 0 <= i < self.nodes@.len() implies #[trigger] self.nodes@[i].current_term
                    >= old(self).nodes@[i].current_term by {}
            }
            Vec::new()
        }
    }

    /// The heartbeat timer of node `id` ran out: a leader that is up sends
    /// entries to every other node.
    pub fn on_heartbeat_timeout(&self, id: usize) -> (actions: Vec<Action>)
        requires
            self.wf(),
            id < self.nodes@.len(),
        ensures
            heartbeat_sent(*self, actions@, id),
    {
        let mut actions: Vec<Action> = Vec::new();
        if self.nodes[id].alive && self.nodes[id].role == Role::Leader {
            self.send_append_entries_to_all(id, &mut actions);
            assert(actions@.skip(0) =~= actions@);
        }
        actions
    }
}


/// Law (one vote per term): handling a message never changes a vote that a
/// node cast in a term that stays, except when a candidate or leader hears
/// an append request of its own term and steps down, forgetting its vote.
pub proof fn lemma_vote_kept(a: Node, b: Node, acts: Seq<Action>, n: int, from: usize, to: usize, rpc: Rpc)
    requires
        a.wf(n),
        a.id == to,
        handles(a, b, acts, n, from, to, rpc),
        !(rpc matches Rpc::AppendEntries { term, .. } && term == a.current_term && a.role != Role::Follower),
    ensures
        vote_kept(a, b),
{
}

/// Law (commitment): a leader commits past its commit index only up to an
/// entry of its current term that a quorum has matched.
pub proof fn lemma_commit_target_sound(log: Seq<LogEntry>, ms: Seq<usize>, term: u64, quorum: int, from: int, to: int)
    requires
        to <= log.len(),
    ensures
        commit_target(log, ms, term, quorum, from, to) > from ==> {
            let t = commit_target(log, ms, term, quorum, from, to);
            &&& t <= to
            &&& log[t - 1].term == term
            &&& replicated_count(ms, t) >= quorum
        },
    decreases to - from,
{
    if to > from {
        lemma_commit_target_sound(log, ms, term, quorum, from, to - 1);
    }
}

/// Law (commitment is maximal): no index after the commit target, up to
/// `to`, holds an entry of the current term that a quorum has matched, and
/// the target never falls below `from`.
pub proof fn lemma_commit_target_maximal(
    log: Seq<LogEntry>,
    ms: Seq<usize>,
    term: u64,
    quorum: int,
    from: int,
    to: int,
)
    requires
        to <= log.len(),
    ensures
        commit_target(log, ms, term, quorum, from, to) >= from,
        forall|k: int|
            commit_target(log, ms, term, quorum, from, to) < k <= to && k > from ==> !(log[k - 1].term == term
                && #[trigger] replicated_count(ms, k) >= quorum),
    decreases to - from,
{
    if to > from {
        lemma_commit_target_maximal(log, ms, term, quorum, from, to - 1);
    }
}

/// Merging entries that a log already holds, each at its place with its
/// term, leaves the log as it is.
proof fn lemma_merge_held(log: Seq<LogEntry>, at: int, entries: Seq<LogEntry>)
    requires
        0 <= at,
        at + entries.len() <= log.len(),
        forall|i: int| 0 <= i < entries.len() ==> #[trigger] log[at + i].term == entries[i].term,
    ensures
        merge_entries(log, at, entries) == log,
    decreases entries.len(),
{
    if entries.len() > 0 {
        assert(log[at + 0].term == entries[0].term);
        assert forall|i: int| 0 <= i < entries.drop_first().len() implies #[trigger] log[at + 1 + i].term
            == entries.drop_first()[i].term by {
            assert(log[at + (i + 1)].term == entries[i + 1].term);
        }
        lemma_merge_held(log, at + 1, entries.drop_first());
    }
}

/// Law (a repeated append request changes nothing): when a follower has
/// taken an append request that succeeded, taking the same request again
/// leaves its log, commit index, term, role and vote as they are, and it
/// succeeds again.
pub proof fn lemma_append_entries_repeat(
    a: Node,
    b: Node,
    c: Node,
    acts1: Seq<Action>,
    acts2: Seq<Action>,
    follower: usize,
    reply_to: usize,
    term: u64,
    prev: usize,
    prev_term: u64,
    entries: Seq<LogEntry>,
    leader_commit: usize,
)
    requires
        append_entries_outcome(a, b, acts1, follower, reply_to, term, prev, prev_term, entries, leader_commit),
        append_entries_outcome(b, c, acts2, follower, reply_to, term, prev, prev_term, entries, leader_commit),
        term >= a.current_term,
        prev_matches(a.log@, prev as int, prev_term),
    ensures
        c.log@ == b.log@,
        c.commit_index == b.commit_index,
        c.current_term == b.current_term,
        c.role == b.role,
        c.voted_for == b.voted_for,
        acts2[1] matches Action::Send { rpc: Rpc::AppendEntriesResponse { success, .. }, .. } && success,
{
    let merged = merge_entries(a.log@, prev as int, entries);
    lemma_merge_entries(a.log@, prev as int, entries);
    assert(b.log@ == merged);
    if prev > 0 {
        assert(merged.take(prev as int)[prev - 1] == a.log@.take(prev as int)[prev - 1]);
    }
    assert(prev_matches(b.log@, prev as int, prev_term));
    assert forall|i: int| 0 <= i < entries.len() implies #[trigger] merged[prev + i].term == entries[i].term by {
        assert(merge_entries(a.log@, prev as int, entries)[prev + i].term == entries[i].term);
    }
    lemma_merge_held(merged, prev as int, entries);
}

/// Multiplier of the linear congruential generator that draws the
/// simulation's timeouts, delays and losses.
pub const LCG_MUL: u64 = 6364136223846793005;

/// Increment of the same generator.
pub const LCG_INC: u64 = 1442695040888963407;

/// One step of the generator, modulo 2^64.
pub open spec fn lcg_step(state: u64) -> u64 {
    ((state * LCG_MUL + LCG_INC) % 0x1_0000_0000_0000_0000) as u64
}

/// The generator's next state, which is also its output.
pub fn lcg_next(state: u64) -> (r: u64)
    ensures
        r == lcg_step(state),
{
    let m = state.wrapping_mul(LCG_MUL);
    proof {
        lemma_wrapped_sum(state * LCG_MUL, m as int, LCG_INC as int);
    }
    m.wrapping_add(LCG_INC)
}

/// Reducing a product modulo 2^64 before adding an increment below 2^64,
/// then wrapping the sum once, gives the sum modulo 2^64.
proof fn lemma_wrapped_sum(x: int, m: int, c: int)
    requires
        0 <= x,
        m == x % 0x1_0000_0000_0000_0000,
        0 <= c < 0x1_0000_0000_0000_0000,
    ensures
        (x + c) % 0x1_0000_0000_0000_0000 == if m + c < 0x1_0000_0000_0000_0000 {
            m + c
        } else {
            m + c - 0x1_0000_0000_0000_0000
        },
{
    vstd::arithmetic::div_mod::lemma_add_mod_noop(x, c, 0x1_0000_0000_0000_0000);
    vstd::arithmetic::div_mod::lemma_small_mod(c as nat, 0x1_0000_0000_0000_0000);
    vstd::arithmetic::div_mod::lemma_mod_bound(x, 0x1_0000_0000_0000_0000);
    if m + c < 0x1_0000_0000_0000_0000 {
        vstd::arithmetic::div_mod::lemma_small_mod((m + c) as nat, 0x1_0000_0000_0000_0000);
    } else {
        vstd::arithmetic::div_mod::lemma_mod_sub_multiples_vanish(m + c, 0x1_0000_0000_0000_0000);
        vstd::arithmetic::div_mod::lemma_small_mod((m + c - 0x1_0000_0000_0000_0000) as nat, 0x1_0000_0000_0000_0000);
    }
}

} // verus!
