use vstd::prelude::*;
use crate::text::same_text;

verus! {

/// The role a node plays.
#[derive(Debug, PartialEq, Eq, Clone, Copy, Structural)]
pub enum NodeState {
    Follower,
    Candidate,
    Leader,
}

/// One entry of the replicated log.
pub struct LogEntry {
    pub term: u64,
    pub index: u64,
    pub command: Vec<u8>,
}

/// The mathematical value of a log entry.
pub struct EntryModel {
    pub term: nat,
    pub index: nat,
    pub command: Seq<u8>,
}

impl View for LogEntry {
    type V = EntryModel;

    open spec fn view(&self) -> EntryModel {
        EntryModel { term: self.term as nat, index: self.index as nat, command: self.command@ }
    }
}

impl LogEntry {
    /// A copy of the entry.
    pub fn duplicate(&self) -> (r: LogEntry)
        ensures
            r@ == self@,
    {
        LogEntry { term: self.term, index: self.index, command: self.command.clone() }
    }
}

pub open spec fn entries_view(v: Seq<LogEntry>) -> Seq<EntryModel> {
    v.map_values(|e: LogEntry| e@)
}

/// A copy of a run of entries.
pub fn copy_entries(v: &Vec<LogEntry>, lo: usize) -> (r: Vec<LogEntry>)
    requires
        lo <= v@.len(),
    ensures
        entries_view(r@) == entries_view(v@).subrange(lo as int, v@.len() as int),
{
    let mut out: Vec<LogEntry> = Vec::new();
    let mut i = lo;
    while i < v.len()
        invariant
            lo <= i <= v@.len(),
            entries_view(out@) == entries_view(v@).subrange(lo as int, i as int),
        decreases v.len() - i,
    {
        let ghost prev = out@;
        let e = v[i].duplicate();
        out.push(e);
        assert(entries_view(out@) =~= entries_view(prev).push(v@[i as int]@));
        i = i + 1;
        assert(entries_view(out@) =~= entries_view(v@).subrange(lo as int, i as int));
    }
    out
}

/// A candidate's request for a vote.
pub struct VoteRequest {
    pub term: u64,
    pub candidate_id: u64,
    pub last_log_index: u64,
    pub last_log_term: u64,
}

/// The answer to a vote request.
pub struct VoteResponse {
    pub term: u64,
    pub vote_granted: bool,
}

/// A leader's heartbeat, with the entries a follower lacks.
pub struct AppendEntriesRequest {
    pub term: u64,
    pub leader_id: u64,
    pub prev_log_index: u64,
    pub prev_log_term: u64,
    pub leader_commit: u64,
    pub entries: Vec<LogEntry>,
}

/// The answer to a heartbeat.
pub struct AppendEntriesResponse {
    pub term: u64,
    pub success: bool,
}

/// What the leader knows of a follower.
pub struct PeerState {
    pub next_index: u64,
    pub match_index: u64,
}

/// A follower's address and what the leader knows of it.
pub struct Peer {
    pub addr: String,
    pub progress: PeerState,
}

/// The mathematical value of a peer.
pub struct PeerModel {
    pub addr: Seq<char>,
    pub next_index: nat,
    pub match_index: nat,
}

impl View for Peer {
    type V = PeerModel;

    open spec fn view(&self) -> PeerModel {
        PeerModel {
            addr: self.addr@,
            next_index: self.progress.next_index as nat,
            match_index: self.progress.match_index as nat,
        }
    }
}

/// Work that the node hands to the code around it, in order.
pub enum Effect {
    /// Write the term and the vote to stable storage.
    SaveMetadata { term: u64, voted_for: Option<u64> },
    /// Append the entry to the log on stable storage.
    PersistEntry(LogEntry),
    /// Keep only the first this many entries of the log on stable storage.
    TruncateLog(u64),
    /// Hand a committed command to the store.
    Apply(Vec<u8>),
    /// Note that a leader or candidate was heard from: restart the election
    /// timeout.
    ResetElectionTimer,
    /// The node became leader: start sending heartbeats.
    StartHeartbeats,
}

/// The mathematical value of an effect.
pub enum EffectModel {
    SaveMetadata { term: nat, voted_for: Option<nat> },
    PersistEntry(EntryModel),
    TruncateLog(nat),
    Apply(Seq<u8>),
    ResetElectionTimer,
    StartHeartbeats,
}

impl View for Effect {
    type V = EffectModel;

    open spec fn view(&self) -> EffectModel {
        match self {
            Effect::SaveMetadata { term, voted_for } => EffectModel::SaveMetadata {
                term: *term as nat,
                voted_for: match voted_for {
                    Some(v) => Some(*v as nat),
                    None => None,
                },
            },
            Effect::PersistEntry(e) => EffectModel::PersistEntry(e@),
            Effect::TruncateLog(n) => EffectModel::TruncateLog(*n as nat),
            Effect::Apply(c) => EffectModel::Apply(c@),
            Effect::ResetElectionTimer => EffectModel::ResetElectionTimer,
            Effect::StartHeartbeats => EffectModel::StartHeartbeats,
        }
    }
}

pub open spec fn effects_view(v: Seq<Effect>) -> Seq<EffectModel> {
    v.map_values(|e: Effect| e@)
}

pub open spec fn vote_view(v: Option<u64>) -> Option<nat> {
    match v {
        Some(c) => Some(c as nat),
        None => None,
    }
}

pub open spec fn peers_view(v: Seq<Peer>) -> Seq<PeerModel> {
    v.map_values(|p: Peer| p@)
}

/// Whether some peer has the address `a`.
pub open spec fn has_peer(peers: Seq<PeerModel>, a: Seq<char>) -> bool {
    exists|i: int| 0 <= i < peers.len() && (#[trigger] peers[i]).addr == a
}

/// Whether the first `n` addresses list `a`.
pub open spec fn lists_addr(addrs: Seq<String>, n: int, a: Seq<char>) -> bool {
    exists|j: int| 0 <= j < n && (#[trigger] addrs[j])@ == a
}

/// How many values of `s` are at most `v`.
pub open spec fn count_le(s: Seq<u64>, v: u64) -> nat
    decreases s.len(),
{
    if s.len() == 0 {
        0
    } else {
        count_le(s.drop_last(), v) + if s.last() <= v {
            1nat
        } else {
            0nat
        }
    }
}

/// How many values of `s` are below `v`.
pub open spec fn count_lt(s: Seq<u64>, v: u64) -> nat
    decreases s.len(),
{
    if s.len() == 0 {
        0
    } else {
        count_lt(s.drop_last(), v) + if s.last() < v {
            1nat
        } else {
            0nat
        }
    }
}

/// Whether `v`, a value of `s`, has more than `k` values of `s` at or below it.
pub open spec fn is_rank_candidate(s: Seq<u64>, k: nat, v: u64) -> bool {
    s.contains(v) && count_le(s, v) > k
}

/// The value at position `k` once `s` is sorted in ascending order: the least
/// value of `s` with more than `k` values at or below it.
pub open spec fn order_statistic(s: Seq<u64>, k: nat) -> u64 {
    choose|v: u64|
        is_rank_candidate(s, k, v) && forall|w: u64| #[trigger]
            is_rank_candidate(s, k, w) ==> v <= w
}

pub(crate) proof fn lemma_count_le_all(s: Seq<u64>, v: u64)
    requires
        forall|i: int| 0 <= i < s.len() ==> s[i] <= v,
    ensures
        count_le(s, v) == s.len(),
    decreases s.len(),
{
    if s.len() > 0 {
        lemma_count_le_all(s.drop_last(), v);
    }
}

pub(crate) proof fn lemma_max_exists(s: Seq<u64>) -> (m: int)
    requires
        s.len() > 0,
    ensures
        0 <= m < s.len(),
        forall|i: int| 0 <= i < s.len() ==> s[i] <= s[m],
    decreases s.len(),
{
    if s.len() == 1 {
        0
    } else {
        let m0 = lemma_max_exists(s.drop_last());
        if s.last() > s[m0] {
            assert forall|i: int| 0 <= i < s.len() implies #[trigger] s[i] <= s[s.len() - 1] by {
                if i < s.len() - 1 {
                    assert(s.drop_last()[i] == s[i]);
                }
            }
            s.len() - 1
        } else {
            assert forall|i: int| 0 <= i < s.len() implies s[i] <= s[m0] by {
                if i < s.len() - 1 {
                    assert(s.drop_last()[i] == s[i]);
                }
            }
            m0
        }
    }
}

/// The k-th smallest of `vals`: the value at position `k` of them sorted.
pub fn kth_smallest(vals: &Vec<u64>, k: usize) -> (r: u64)
    requires
        k < vals@.len(),
    ensures
        r == order_statistic(vals@, k as nat),
        is_rank_candidate(vals@, k as nat, r),
{
    let ghost s = vals@;
    let mut best: Option<u64> = None;
    let mut i: usize = 0;
    while i < vals.len()
        invariant
            i <= s.len() == vals@.len(),
            s == vals@,
            k < s.len(),
            match best {
                Some(b) => is_rank_candidate(s, k as nat, b) && forall|j: int|
                    0 <= j < i && is_rank_candidate(s, k as nat, #[trigger] s[j]) ==> b <= s[j],
                None => forall|j: int| 0 <= j < i ==> !is_rank_candidate(s, k as nat, #[trigger] s[j]),
            },
        decreases vals.len() - i,
    {
        let v = vals[i];
        let mut c: usize = 0;
        let mut j: usize = 0;
        while j < vals.len()
            invariant
                j <= s.len() == vals@.len(),
                s == vals@,
                c == count_le(s.take(j as int), v),
                c <= j,
            decreases vals.len() - j,
        {
            assert(s.take(j + 1).drop_last() =~= s.take(j as int));
            if vals[j] <= v {
                c = c + 1;
            }
            j = j + 1;
        }
        assert(s.take(j as int) =~= s);
        assert(s.contains(v)) by {
            assert(s[i as int] == v);
        }
        if c > k {
            match best {
                Some(b) => {
                    if v < b {
                        best = Some(v);
                    }
                },
                None => {
                    best = Some(v);
                },
            }
        }
        i = i + 1;
    }
    match best {
        Some(b) => {
            proof {
                assert forall|w: u64| #[trigger] is_rank_candidate(s, k as nat, w) implies b <= w by {
                    let j = choose|j: int| 0 <= j < s.len() && s[j] == w;
                    assert(is_rank_candidate(s, k as nat, s[j]));
                }
                let o = order_statistic(s, k as nat);
                assert(is_rank_candidate(s, k as nat, o) && forall|w: u64| #[trigger]
                    is_rank_candidate(s, k as nat, w) ==> o <= w);
            }
            b
        },
        None => {
            proof {
                let m = lemma_max_exists(s);
                assert(forall|x: int| 0 <= x < s.len() ==> s[x] <= s[m]);
                lemma_count_le_all(s, s[m]);
                assert(s.contains(s[m]));
                assert(is_rank_candidate(s, k as nat, s[m]));
            }
            0
        },
    }
}

/// The state of a node of the cluster.
pub struct RaftNode {
    pub id: u64,
    pub current_term: u64,
    pub voted_for: Option<u64>,
    pub log: Vec<LogEntry>,
    pub commit_index: u64,
    pub state: NodeState,
    pub peers: Vec<Peer>,
}

/// The mathematical value of a node.
pub struct RaftModel {
    pub id: nat,
    pub current_term: nat,
    pub voted_for: Option<nat>,
    pub log: Seq<EntryModel>,
    pub commit_index: nat,
    pub state: NodeState,
    pub peers: Seq<PeerModel>,
}

impl View for RaftNode {
    type V = RaftModel;

    open spec fn view(&self) -> RaftModel {
        RaftModel {
            id: self.id as nat,
            current_term: self.current_term as nat,
            voted_for: vote_view(self.voted_for),
            log: entries_view(self.log@),
            commit_index: self.commit_index as nat,
            state: self.state,
            peers: peers_view(self.peers@),
        }
    }
}

impl RaftModel {
    /// No address twice, and every follower's next index at least 1.
    pub open spec fn wf(self) -> bool {
        &&& forall|i: int, j: int|
            0 <= i < j < self.peers.len() ==> (#[trigger] self.peers[i]).addr != (#[trigger] self.peers[j]).addr
        &&& forall|i: int| 0 <= i < self.peers.len() ==> (#[trigger] self.peers[i]).next_index >= 1
    }

    /// Setting the term and the vote, with the effect that persists them.
    pub open spec fn save_metadata(self, term: nat, vote: Option<nat>) -> (RaftModel, EffectModel) {
        (
            RaftModel { current_term: term, voted_for: vote, ..self },
            EffectModel::SaveMetadata { term, voted_for: vote },
        )
    }

    /// Answering a vote request: a newer term makes the node a follower with no
    /// vote; the vote goes to the candidate if the term is current and the node
    /// has not voted for another.
    pub open spec fn request_vote(self, req_term: nat, candidate: nat) -> (
        RaftModel,
        (nat, bool),
        Seq<EffectModel>,
    ) {
        let (s1, e1) = if req_term > self.current_term {
            let (s, e) = self.save_metadata(req_term, None);
            (RaftModel { state: NodeState::Follower, ..s }, seq![e])
        } else {
            (self, seq![])
        };
        if req_term < s1.current_term {
            (s1, (s1.current_term, false), e1)
        } else if s1.voted_for is None || s1.voted_for == Some(candidate) {
            let (s2, e) = s1.save_metadata(req_term, Some(candidate));
            (s2, (s2.current_term, true), e1 + seq![e, EffectModel::ResetElectionTimer])
        } else {
            (s1, (s1.current_term, false), e1)
        }
    }

    /// Placing the entries of a heartbeat after position `prev` of the log,
    /// one after another: an entry the log already holds with the same term
    /// stays; at the first that differs in term, that entry and all after it
    /// are dropped and the new entry takes its place; past the end of the log,
    /// entries are appended.
    pub open spec fn merge(log: Seq<EntryModel>, prev: nat, entries: Seq<EntryModel>) -> (
        Seq<EntryModel>,
        Seq<EffectModel>,
    )
        decreases entries.len(),
    {
        if entries.len() == 0 {
            (log, seq![])
        } else {
            let (l, fx) = Self::merge(log, prev, entries.drop_last());
            let p = prev + entries.len() - 1;
            let e = entries.last();
            if p < l.len() {
                if l[p].term == e.term {
                    (l, fx)
                } else {
                    (
                        l.take(p).push(e),
                        fx + seq![EffectModel::TruncateLog(p as nat), EffectModel::PersistEntry(e)],
                    )
                }
            } else {
                (l.push(e), fx.push(EffectModel::PersistEntry(e)))
            }
        }
    }

    /// Whether the log holds the entry that a heartbeat's entries follow: any
    /// log does when `prev` is 0; otherwise the entry at index `prev` must be
    /// of term `prev_term`.
    pub open spec fn holds_prev(log: Seq<EntryModel>, prev: nat, prev_term: nat) -> bool {
        prev == 0 || (prev <= log.len() && log[prev - 1].term == prev_term)
    }

    /// Whether the entries carry the indices `prev + 1`, `prev + 2`, and so on.
    pub open spec fn consecutive(prev: nat, entries: Seq<EntryModel>) -> bool {
        forall|j: int| 0 <= j < entries.len() ==> #[trigger] entries[j].index == prev + j + 1
    }

    /// Handing the store the commands of the entries at indices `from + 1`
    /// through `to`, in order, as far as the log reaches.
    pub open spec fn applies(log: Seq<EntryModel>, from: nat, to: nat) -> Seq<EffectModel> {
        let hi = if to < log.len() {
            to
        } else {
            log.len()
        };
        if from < hi {
            Seq::new((hi - from) as nat, |j: int| EffectModel::Apply(log[from + j].command))
        } else {
            seq![]
        }
    }

    /// Answering a heartbeat: a stale term is refused; otherwise the node
    /// follows the leader. It refuses entries that do not follow an entry it
    /// holds (at index `prev`, of term `prev_term`) or that are not numbered
    /// one after another from `prev + 1`. Otherwise it places them after
    /// `prev`, dropping what conflicts, and moves its commit index up to the
    /// leader's, as far as the entries it was sent reach, handing the
    /// commands of the newly committed entries to the store, in order.
    pub open spec fn append_entries(
        self,
        req_term: nat,
        prev: nat,
        prev_term: nat,
        leader_commit: nat,
        entries: Seq<EntryModel>,
    ) -> (RaftModel, (nat, bool), Seq<EffectModel>) {
        if req_term < self.current_term {
            (self, (self.current_term, false), seq![])
        } else {
            let (s1, e1) = if req_term > self.current_term {
                let (s, e) = self.save_metadata(req_term, None);
                (s, seq![e])
            } else {
                (self, seq![])
            };
            let s2 = RaftModel { state: NodeState::Follower, ..s1 };
            let e2 = e1 + seq![EffectModel::ResetElectionTimer];
            if !Self::holds_prev(s2.log, prev, prev_term) || !Self::consecutive(prev, entries) {
                (s2, (s2.current_term, false), e2)
            } else {
                let (log, e3) = Self::merge(s2.log, prev, entries);
                let last_new = prev + entries.len();
                let target = if leader_commit < last_new {
                    leader_commit
                } else {
                    last_new
                };
                let c = if target > s2.commit_index {
                    target
                } else {
                    s2.commit_index
                };
                let s3 = RaftModel { log, commit_index: c, ..s2 };
                (s3, (s3.current_term, true), e2 + e3 + Self::applies(log, s2.commit_index, c))
            }
        }
    }

    /// Stepping down to follower in `term`, with no vote.
    pub open spec fn become_follower(self, term: nat) -> (RaftModel, EffectModel) {
        let (s, e) = self.save_metadata(term, None);
        (RaftModel { state: NodeState::Follower, ..s }, e)
    }

    /// Becoming leader: every follower is to be sent the log from its end on.
    pub open spec fn become_leader(self) -> RaftModel {
        RaftModel {
            state: NodeState::Leader,
            peers: Seq::new(
                self.peers.len(),
                |i: int|
                    PeerModel {
                        addr: self.peers[i].addr,
                        next_index: self.log.len() + 1,
                        match_index: 0,
                    },
            ),
            ..self
        }
    }

    /// The term of the entry that comes before index `next`, which a follower
    /// must hold to take the entries from `next` on; 0 where there is none.
    pub open spec fn term_before(log: Seq<EntryModel>, next: nat) -> nat {
        if 1 < next && next - 1 <= log.len() {
            log[next - 2].term
        } else {
            0
        }
    }

    /// The entries a follower whose next index is `next` is sent.
    pub open spec fn entries_from(log: Seq<EntryModel>, next: nat) -> Seq<EntryModel> {
        if 1 <= next <= log.len() {
            log.subrange(next - 1, log.len() as int)
        } else {
            seq![]
        }
    }

    /// The match index of every follower, then the length of this node's log.
    pub open spec fn match_values(self) -> Seq<u64> {
        Seq::new(self.peers.len(), |i: int| self.peers[i].match_index as u64).push(
            self.log.len() as u64,
        )
    }

    /// The greatest index that more than half the cluster holds: the value at
    /// position `(n - 1) / 2` of the `n` match values sorted in ascending
    /// order.
    pub open spec fn majority_index(self) -> u64 {
        order_statistic(self.match_values(), ((self.match_values().len() - 1) / 2) as nat)
    }

    /// Taking in a follower's answer to a heartbeat of `term` that carried
    /// `sent`: on success the follower's progress moves to the last entry
    /// sent and the commit index moves up to the majority index, handing the
    /// commands of the newly committed entries to the store, in order; a
    /// refusal with a newer term makes the node a follower, and any other
    /// refusal moves the follower's next index back by one, down to 1, so
    /// that the next heartbeat starts one entry earlier.
    pub open spec fn append_response(
        self,
        peer: int,
        term: nat,
        sent: Seq<EntryModel>,
        resp_term: nat,
        success: bool,
    ) -> (RaftModel, Seq<EffectModel>) {
        if success {
            if sent.len() > 0 {
                let last = sent.last();
                let s1 = RaftModel {
                    peers: self.peers.update(
                        peer,
                        PeerModel {
                            addr: self.peers[peer].addr,
                            next_index: last.index + 1,
                            match_index: last.index,
                        },
                    ),
                    ..self
                };
                let n = s1.majority_index();
                if n > s1.commit_index {
                    let s2 = RaftModel { commit_index: n as nat, ..s1 };
                    (s2, Self::applies(s2.log, s1.commit_index, n as nat))
                } else {
                    (s1, seq![])
                }
            } else {
                (self, seq![])
            }
        } else if resp_term > term {
            let (s, e) = self.become_follower(resp_term);
            (s, seq![e])
        } else {
            let next = self.peers[peer].next_index;
            (
                RaftModel {
                    peers: self.peers.update(
                        peer,
                        PeerModel {
                            next_index: if next > 1 {
                                (next - 1) as nat
                            } else {
                                1
                            },
                            ..self.peers[peer]
                        },
                    ),
                    ..self
                },
                seq![],
            )
        }
    }

    /// Starting an election: candidate in the next term, voting for itself.
    pub open spec fn start_election(self) -> (RaftModel, EffectModel) {
        let (s, e) = self.save_metadata(self.current_term + 1, Some(self.id));
        (RaftModel { state: NodeState::Candidate, ..s }, e)
    }
}

/// The count of votes in an election.
pub struct ElectionTally {
    pub term: u64,
    pub votes: u64,
    pub total: u64,
    pub majority: u64,
}

/// Why a proposal was not taken.
#[derive(Debug, Clone, Copy, PartialEq, Eq, Structural)]
pub enum ProposeError {
    NotLeader,
    PersistenceFailure,
}

/// Whether `log` holds an entry of term `prev_term` at index `prev`; any log
/// does when `prev` is 0.
fn holds_prev(log: &Vec<LogEntry>, prev: u64, prev_term: u64) -> (r: bool)
    ensures
        r == RaftModel::holds_prev(entries_view(log@), prev as nat, prev_term as nat),
{
    if prev == 0 {
        return true;
    }
    if prev > log.len() as u64 {
        return false;
    }
    assert(entries_view(log@)[prev - 1] == log@[prev - 1]@);
    log[(prev - 1) as usize].term == prev_term
}

/// Whether `entries` carry the indices `prev + 1`, `prev + 2`, and so on.
fn consecutive(prev: u64, entries: &Vec<LogEntry>) -> (r: bool)
    ensures
        r == RaftModel::consecutive(prev as nat, entries_view(entries@)),
{
    let ghost es = entries_view(entries@);
    let mut j: usize = 0;
    while j < entries.len()
        invariant
            j <= entries@.len(),
            es == entries_view(entries@),
            forall|i: int| 0 <= i < j ==> #[trigger] es[i].index == prev + i + 1,
        decreases entries.len() - j,
    {
        let idx = entries[j].index;
        assert(es[j as int] == entries@[j as int]@);
        if idx == 0 || idx - 1 < prev || idx - 1 - prev != j as u64 {
            assert(!(es[j as int].index == prev + j + 1));
            return false;
        }
        j = j + 1;
    }
    true
}

/// Places `entries` after position `prev` of `log`, as `RaftModel::merge`
/// says, and gives the effects that do the same on stable storage.
fn merge_entries(log: &mut Vec<LogEntry>, prev: usize, entries: &Vec<LogEntry>) -> (r: Vec<Effect>)
    requires
        prev <= old(log)@.len(),
    ensures
        (entries_view(final(log)@), effects_view(r@)) == RaftModel::merge(
            entries_view(old(log)@),
            prev as nat,
            entries_view(entries@),
        ),
        final(log)@.len() >= prev + entries@.len(),
{
    let ghost l0 = entries_view(log@);
    let ghost es = entries_view(entries@);
    let mut effects: Vec<Effect> = Vec::new();
    let mut j: usize = 0;
    assert(es.take(0) =~= Seq::<EntryModel>::empty());
    assert(effects_view(effects@) =~= Seq::<EffectModel>::empty());
    while j < entries.len()
        invariant
            j <= entries@.len(),
            es == entries_view(entries@),
            log@.len() >= prev + j,
            (entries_view(log@), effects_view(effects@)) == RaftModel::merge(l0, prev as nat, es.take(j as int)),
        decreases entries.len() - j,
    {
        assert(es.take(j + 1).drop_last() =~= es.take(j as int));
        assert(es.take(j + 1).last() == entries@[j as int]@);
        assert(es.take(j + 1).len() == j + 1);
        let ghost before_log = entries_view(log@);
        let ghost before_fx = effects_view(effects@);
        let len = log.len();
        let p = prev + j;
        let e = &entries[j];
        if p < len {
            assert(before_log[p as int] == log@[p as int]@);
            if log[p].term != e.term {
                log.truncate(p);
                effects.push(Effect::TruncateLog(p as u64));
                effects.push(Effect::PersistEntry(e.duplicate()));
                log.push(e.duplicate());
                assert(entries_view(log@) =~= before_log.take(p as int).push(e@));
                assert(effects_view(effects@) =~= before_fx + seq![
                    EffectModel::TruncateLog(p as nat),
                    EffectModel::PersistEntry(e@),
                ]);
            }
        } else {
            log.push(e.duplicate());
            effects.push(Effect::PersistEntry(e.duplicate()));
            assert(entries_view(log@) =~= before_log.push(e@));
            assert(effects_view(effects@) =~= before_fx.push(EffectModel::PersistEntry(e@)));
        }
        j = j + 1;
    }
    assert(es.take(j as int) =~= es);
    effects
}

/// The effects that hand the store the commands of the entries at indices
/// `from + 1` through `to` of `log`, in order, as far as the log reaches.
fn apply_range(log: &Vec<LogEntry>, from: u64, to: u64) -> (r: Vec<Effect>)
    ensures
        effects_view(r@) == RaftModel::applies(entries_view(log@), from as nat, to as nat),
{
    let ghost l = entries_view(log@);
    let hi: u64 = if to < log.len() as u64 {
        to
    } else {
        log.len() as u64
    };
    let mut effects: Vec<Effect> = Vec::new();
    if from >= hi {
        assert(effects_view(effects@) =~= RaftModel::applies(l, from as nat, to as nat));
        return effects;
    }
    let lo = from as usize;
    let top = hi as usize;
    let mut i: usize = lo;
    while i < top
        invariant
            lo == from,
            top == hi,
            lo <= i <= top <= log@.len(),
            l == entries_view(log@),
            effects_view(effects@) == Seq::new(
                (i - lo) as nat,
                |j: int| EffectModel::Apply(l[lo + j].command),
            ),
        decreases top - i,
    {
        let ghost before = effects_view(effects@);
        let cmd = log[i].command.clone();
        assert(cmd@ == l[i as int].command);
        let e = Effect::Apply(cmd);
        assert(e@ == EffectModel::Apply(l[i as int].command));
        effects.push(e);
        assert(effects_view(effects@) =~= before.push(EffectModel::Apply(l[i as int].command)));
        i = i + 1;
        assert(effects_view(effects@) =~= Seq::new(
            (i - lo) as nat,
            |j: int| EffectModel::Apply(l[lo + j].command),
        ));
    }
    assert(effects_view(effects@) =~= RaftModel::applies(l, from as nat, to as nat));
    effects
}

impl RaftNode {
    pub open spec fn wf(&self) -> bool {
        self@.wf()
    }

    /// A follower in `term` with vote `voted_for` and log `log`, as loaded from
    /// stable storage, whose peers are `peer_addrs` (an address given twice
    /// counts once).
    pub fn new(
        id: u64,
        peer_addrs: Vec<String>,
        term: u64,
        voted_for: Option<u64>,
        log: Vec<LogEntry>,
    ) -> (r: RaftNode)
        ensures
            r.wf(),
            r@.id == id,
            r@.current_term == term,
            r@.voted_for == vote_view(voted_for),
            r@.log == entries_view(log@),
            r@.commit_index == 0,
            r@.state == NodeState::Follower,
            forall|i: int|
                0 <= i < r@.peers.len() ==> (#[trigger] r@.peers[i]).next_index == 1
                    && r@.peers[i].match_index == 0,
            forall|a: Seq<char>|
                #[trigger] has_peer(r@.peers, a) <==> lists_addr(peer_addrs@, peer_addrs@.len() as int, a),
    {
        let mut peers: Vec<Peer> = Vec::new();
        let mut i: usize = 0;
        while i < peer_addrs.len()
            invariant
                i <= peer_addrs@.len(),
                forall|x: int, y: int|
                    0 <= x < y < peers@.len() ==> (#[trigger] peers@[x])@.addr != (#[trigger] peers@[y])@.addr,
                forall|x: int|
                    0 <= x < peers@.len() ==> (#[trigger] peers@[x])@.next_index == 1
                        && peers@[x]@.match_index == 0,
                forall|a: Seq<char>|
                    #[trigger] has_peer(peers_view(peers@), a) <==> lists_addr(
                        peer_addrs@,
                        i as int,
                        a,
                    ),
            decreases peer_addrs.len() - i,
        {
            let addr = &peer_addrs[i];
            let mut seen = false;
            let mut j: usize = 0;
            while j < peers.len()
                invariant
                    j <= peers@.len(),
                    seen <==> exists|x: int| 0 <= x < j && (#[trigger] peers@[x])@.addr == addr@,
                decreases peers.len() - j,
            {
                if same_text(peers[j].addr.as_str(), addr.as_str()) {
                    seen = true;
                }
                j = j + 1;
            }
            if !seen {
                let ghost before = peers@;
                peers.push(
                    Peer { addr: addr.clone(), progress: PeerState { next_index: 1, match_index: 0 } },
                );
                let ghost pv = peers_view(peers@);
                let ghost bv = peers_view(before);
                assert forall|a: Seq<char>| #[trigger] has_peer(pv, a) <==> lists_addr(
                    peer_addrs@,
                    i + 1,
                    a,
                ) by {
                    if has_peer(pv, a) {
                        let x = choose|x: int| 0 <= x < pv.len() && (#[trigger] pv[x]).addr == a;
                        if x < bv.len() {
                            assert(bv[x].addr == a);
                            assert(has_peer(bv, a));
                            let j = choose|j: int| 0 <= j < i && (#[trigger] peer_addrs@[j])@ == a;
                            assert(peer_addrs@[j]@ == a);
                        } else {
                            assert(peer_addrs@[i as int]@ == a);
                        }
                    }
                    if lists_addr(peer_addrs@, i + 1, a) {
                        let j = choose|j: int| 0 <= j < i + 1 && (#[trigger] peer_addrs@[j])@ == a;
                        if j < i {
                            assert(lists_addr(peer_addrs@, i as int, a));
                            assert(has_peer(bv, a));
                            let x = choose|x: int| 0 <= x < bv.len() && (#[trigger] bv[x]).addr == a;
                            assert(pv[x] == bv[x]);
                        } else {
                            assert(pv[bv.len() as int].addr == a);
                        }
                    }
                }
            } else {
                let ghost pv = peers_view(peers@);
                assert forall|a: Seq<char>| #[trigger] has_peer(pv, a) <==> lists_addr(
                    peer_addrs@,
                    i + 1,
                    a,
                ) by {
                    if lists_addr(peer_addrs@, i + 1, a) {
                        let j = choose|j: int| 0 <= j < i + 1 && (#[trigger] peer_addrs@[j])@ == a;
                        if j < i {
                            assert(lists_addr(peer_addrs@, i as int, a));
                        } else {
                            let x = choose|x: int| 0 <= x < peers@.len() && (#[trigger] peers@[x])@.addr == addr@;
                            assert(pv[x].addr == a);
                        }
                    }
                    if has_peer(pv, a) {
                        let j = choose|j: int| 0 <= j < i && (#[trigger] peer_addrs@[j])@ == a;
                        assert(peer_addrs@[j]@ == a);
                    }
                }
            }
            i = i + 1;
        }
        let r = RaftNode {
            id,
            current_term: term,
            voted_for,
            log,
            commit_index: 0,
            state: NodeState::Follower,
            peers,
        };
        r
    }

    proof fn lemma_view(&self)
        ensures
            self@.peers.len() == self.peers@.len(),
            self@.log.len() == self.log@.len(),
            forall|i: int| 0 <= i < self.peers@.len() ==> #[trigger] self@.peers[i] == self.peers@[i]@,
            forall|i: int| 0 <= i < self.log@.len() ==> #[trigger] self@.log[i] == self.log@[i]@,
    {
    }

    /// Sets the term and the vote; gives the effect that persists them.
    fn save_metadata(&mut self, term: u64, vote: Option<u64>) -> (e: Effect)
        requires
            old(self).wf(),
        ensures
            final(self).wf(),
            (final(self)@, e@) == old(self)@.save_metadata(term as nat, vote_view(vote)),
    {
        self.current_term = term;
        self.voted_for = vote;
        Effect::SaveMetadata { term, voted_for: vote }
    }

    /// Answers a vote request; gives the answer and the effects, in order.
    pub fn request_vote(&mut self, req: &VoteRequest) -> (r: (VoteResponse, Vec<Effect>))
        requires
            old(self).wf(),
        ensures
            final(self).wf(),
            final(self)@ == old(self)@.request_vote(req.term as nat, req.candidate_id as nat).0,
            r.0.term == old(self)@.request_vote(req.term as nat, req.candidate_id as nat).1.0,
            r.0.vote_granted == old(self)@.request_vote(req.term as nat, req.candidate_id as nat).1.1,
            effects_view(r.1@) == old(self)@.request_vote(req.term as nat, req.candidate_id as nat).2,
    {
        let mut effects: Vec<Effect> = Vec::new();
        if req.term > self.current_term {
            let e = self.save_metadata(req.term, None);
            effects.push(e);
            self.state = NodeState::Follower;
        }
        let granted = if req.term < self.current_term {
            false
        } else if self.voted_for.is_none() || self.voted_for == Some(req.candidate_id) {
            let e = self.save_metadata(req.term, Some(req.candidate_id));
            effects.push(e);
            effects.push(Effect::ResetElectionTimer);
            true
        } else {
            false
        };
        assert(effects_view(effects@) =~= old(self)@.request_vote(
            req.term as nat,
            req.candidate_id as nat,
        ).2);
        (VoteResponse { term: self.current_term, vote_granted: granted }, effects)
    }

    /// Answers a heartbeat; gives the answer and the effects, in order.
    pub fn append_entries(&mut self, req: AppendEntriesRequest) -> (r: (
        AppendEntriesResponse,
        Vec<Effect>,
    ))
        requires
            old(self).wf(),
        ensures
            final(self).wf(),
            ({
                let (s, (t, ok), fx) = old(self)@.append_entries(
                    req.term as nat,
                    req.prev_log_index as nat,
                    req.prev_log_term as nat,
                    req.leader_commit as nat,
                    entries_view(req.entries@),
                );
                &&& final(self)@ == s
                &&& r.0.term == t
                &&& r.0.success == ok
                &&& effects_view(r.1@) == fx
            }),
    {
        if req.term < self.current_term {
            let effects: Vec<Effect> = Vec::new();
            assert(effects_view(effects@) =~= Seq::<EffectModel>::empty());
            return (AppendEntriesResponse { term: self.current_term, success: false }, effects);
        }
        let mut effects: Vec<Effect> = Vec::new();
        if req.term > self.current_term {
            let e = self.save_metadata(req.term, None);
            effects.push(e);
        }
        self.state = NodeState::Follower;
        effects.push(Effect::ResetElectionTimer);
        let ghost e2 = effects_view(effects@);
        let ghost s2 = self@;
        assert(e2 == (if req.term > old(self).current_term {
            seq![EffectModel::SaveMetadata { term: req.term as nat, voted_for: None }]
        } else {
            Seq::<EffectModel>::empty()
        }) + seq![EffectModel::ResetElectionTimer]);
        if !holds_prev(&self.log, req.prev_log_index, req.prev_log_term) || !consecutive(
            req.prev_log_index,
            &req.entries,
        ) {
            return (AppendEntriesResponse { term: self.current_term, success: false }, effects);
        }
        let ghost es = entries_view(req.entries@);
        let ghost merged = RaftModel::merge(s2.log, req.prev_log_index as nat, es);
        let len0 = self.log.len();
        assert(req.prev_log_index <= len0);
        let prev = req.prev_log_index as usize;
        assert(prev == req.prev_log_index);
        let mut fx = merge_entries(&mut self.log, prev, &req.entries);
        let ghost e3 = effects_view(fx@);
        assert(e3 == merged.1);
        assert(self@.log == merged.0);
        effects.append(&mut fx);
        assert(effects_view(effects@) =~= e2 + e3);
        let len_now = self.log.len();
        let last_new = (prev + req.entries.len()) as u64;
        let target = if req.leader_commit < last_new {
            req.leader_commit
        } else {
            last_new
        };
        if target > self.commit_index {
            let old_commit = self.commit_index;
            self.commit_index = target;
            let mut applied = apply_range(&self.log, old_commit, target);
            let ghost a = effects_view(applied@);
            effects.append(&mut applied);
            assert(effects_view(effects@) =~= e2 + e3 + a);
        } else {
            let ghost l = self@.log;
            assert(RaftModel::applies(l, s2.commit_index, s2.commit_index) =~= Seq::<EffectModel>::empty());
            assert(effects_view(effects@) =~= e2 + e3 + RaftModel::applies(
                l,
                s2.commit_index,
                s2.commit_index,
            ));
        }
        assert(self@ == (RaftModel { log: merged.0, commit_index: self@.commit_index, ..s2 }));
        (AppendEntriesResponse { term: self.current_term, success: true }, effects)
    }

    /// Steps down to follower in `term`, with no vote.
    pub fn become_follower(&mut self, term: u64) -> (e: Effect)
        requires
            old(self).wf(),
        ensures
            final(self).wf(),
            (final(self)@, e@) == old(self)@.become_follower(term as nat),
    {
        self.state = NodeState::Follower;
        self.save_metadata(term, None)
    }

    /// Becomes leader: every follower is to be sent the log from its end on.
    pub fn become_leader(&mut self)
        requires
            old(self).wf(),
            old(self)@.log.len() < u64::MAX,
        ensures
            final(self).wf(),
            final(self)@ == old(self)@.become_leader(),
    {
        self.state = NodeState::Leader;
        proof {
            self.lemma_view();
        }
        let last_log_index = self.log.len() as u64;
        let ghost start = self@;
        let mut i: usize = 0;
        while i < self.peers.len()
            invariant
                self.wf(),
                i <= self@.peers.len() == start.peers.len(),
                self@ == (RaftModel { peers: self@.peers, ..start }),
                last_log_index == start.log.len(),
                start.log.len() < u64::MAX,
                forall|j: int|
                    0 <= j < i ==> #[trigger] self@.peers[j] == (PeerModel {
                        addr: start.peers[j].addr,
                        next_index: (last_log_index + 1) as nat,
                        match_index: 0,
                    }),
                forall|j: int| i <= j < self@.peers.len() ==> #[trigger] self@.peers[j] == start.peers[j],
            decreases self@.peers.len() - i,
        {
            proof {
                self.lemma_view();
            }
            self.set_progress(i, last_log_index + 1, 0);
            i = i + 1;
        }
        proof {
            self.lemma_view();
        }
        assert(self@.peers =~= old(self)@.become_leader().peers);
    }

    /// Starts an election: candidate in the next term, voting for itself.
    /// Gives the request to send every peer, the effect that persists the new
    /// term and vote, and an empty tally holding this node's own vote.
    pub fn start_election(&mut self) -> (r: (VoteRequest, Effect, ElectionTally))
        requires
            old(self).wf(),
            old(self)@.current_term < u64::MAX,
            old(self)@.peers.len() < u64::MAX - 1,
        ensures
            final(self).wf(),
            (final(self)@, r.1@) == old(self)@.start_election(),
            r.0.term == final(self)@.current_term,
            r.0.candidate_id == old(self)@.id,
            r.0.last_log_index == 0,
            r.0.last_log_term == 0,
            r.2.term == final(self)@.current_term,
            r.2.votes == 1,
            r.2.total == old(self)@.peers.len() + 1,
            r.2.majority == (old(self)@.peers.len() + 1) / 2 + 1,
    {
        self.state = NodeState::Candidate;
        let new_term = self.current_term + 1;
        let e = self.save_metadata(new_term, Some(self.id));
        proof {
            self.lemma_view();
        }
        let total = self.peers.len() as u64 + 1;
        let req = VoteRequest { term: new_term, candidate_id: self.id, last_log_index: 0, last_log_term: 0 };
        (req, e, ElectionTally { term: new_term, votes: 1, total, majority: total / 2 + 1 })
    }

    /// Counts a peer's answer to this node's vote request: a vote adds one; a
    /// refusal with a newer term makes the node a follower, and the effect of
    /// that is given back.
    pub fn record_vote(&mut self, tally: &mut ElectionTally, resp: &VoteResponse) -> (r: Option<Effect>)
        requires
            old(self).wf(),
            old(tally).votes < u64::MAX,
        ensures
            final(self).wf(),
            final(tally).term == old(tally).term,
            final(tally).total == old(tally).total,
            final(tally).majority == old(tally).majority,
            resp.vote_granted ==> final(tally).votes == old(tally).votes + 1 && r is None
                && final(self)@ == old(self)@,
            !resp.vote_granted ==> final(tally).votes == old(tally).votes,
            !resp.vote_granted && resp.term > old(tally).term ==> r is Some && (final(self)@, r->0@)
                == old(self)@.become_follower(resp.term as nat),
            !resp.vote_granted && resp.term <= old(tally).term ==> r is None && final(self)@ == old(
                self,
            )@,
    {
        if resp.vote_granted {
            tally.votes = tally.votes + 1;
            None
        } else if resp.term > tally.term {
            Some(self.become_follower(resp.term))
        } else {
            None
        }
    }

    /// Ends an election: with a majority of votes the node becomes leader and
    /// the effect that starts its heartbeats is given back.
    pub fn finish_election(&mut self, tally: &ElectionTally) -> (r: Option<Effect>)
        requires
            old(self).wf(),
            old(self)@.log.len() < u64::MAX,
        ensures
            final(self).wf(),
            tally.votes >= tally.majority ==> final(self)@ == old(self)@.become_leader() && r is Some
                && r->0@ == EffectModel::StartHeartbeats,
            tally.votes < tally.majority ==> final(self)@ == old(self)@ && r is None,
    {
        if tally.votes >= tally.majority {
            self.become_leader();
            Some(Effect::StartHeartbeats)
        } else {
            None
        }
    }

    /// Whether an election is due once the node has waited `timeout_ns` nanoseconds: a
    /// node that is not leader starts one when it has heard from no leader or
    /// candidate for longer than that.
    pub fn election_due(&self, since_heard_ns: u128, timeout_ns: u128) -> (r: bool)
        ensures
            r == (self@.state != NodeState::Leader && since_heard_ns > timeout_ns),
    {
        self.state != NodeState::Leader && since_heard_ns > timeout_ns
    }

    /// The number of followers.
    pub fn peer_count(&self) -> (r: usize)
        ensures
            r == self@.peers.len(),
    {
        proof {
            self.lemma_view();
        }
        self.peers.len()
    }

    /// The address of follower `peer`.
    pub fn peer_addr(&self, peer: usize) -> (r: String)
        requires
            peer < self@.peers.len(),
        ensures
            r@ == self@.peers[peer as int].addr,
    {
        proof {
            self.lemma_view();
        }
        self.peers[peer].addr.clone()
    }

    /// The heartbeat of `term` for follower `peer`, carrying the entries of
    /// `log` (a copy of the log taken when the heartbeat round began) from the
    /// follower's next index on.
    pub fn replication_request(&self, peer: usize, term: u64, log: &Vec<LogEntry>) -> (r:
        AppendEntriesRequest)
        requires
            self.wf(),
            peer < self@.peers.len(),
        ensures
            r.term == term,
            r.leader_id == self@.id,
            r.prev_log_index == (if self@.peers[peer as int].next_index > 1 {
                self@.peers[peer as int].next_index - 1
            } else {
                0
            }),
            r.prev_log_term == RaftModel::term_before(
                entries_view(log@),
                self@.peers[peer as int].next_index,
            ),
            r.leader_commit == self@.commit_index,
            entries_view(r.entries@) == RaftModel::entries_from(
                entries_view(log@),
                self@.peers[peer as int].next_index,
            ),
    {
        proof {
            self.lemma_view();
        }
        let next_idx = self.peers[peer].progress.next_index;
        assert(self@.peers[peer as int].next_index >= 1);
        let prev_idx = if next_idx > 1 {
            next_idx - 1
        } else {
            0
        };
        let entries = if next_idx <= log.len() as u64 {
            copy_entries(log, (next_idx - 1) as usize)
        } else {
            let v: Vec<LogEntry> = Vec::new();
            assert(entries_view(v@) =~= Seq::<EntryModel>::empty());
            v
        };
        let prev_term = if next_idx > 1 && next_idx - 1 <= log.len() as u64 {
            assert(entries_view(log@)[next_idx - 2] == log@[next_idx - 2]@);
            log[(next_idx - 2) as usize].term
        } else {
            0
        };
        AppendEntriesRequest {
            term,
            leader_id: self.id,
            prev_log_index: prev_idx,
            prev_log_term: prev_term,
            leader_commit: self.commit_index,
            entries,
        }
    }

    /// The match values: every follower's match index, then the length of the
    /// log.
    fn match_values(&self) -> (r: Vec<u64>)
        ensures
            r@ == self@.match_values(),
    {
        proof {
            self.lemma_view();
        }
        let mut vals: Vec<u64> = Vec::new();
        let mut i: usize = 0;
        while i < self.peers.len()
            invariant
                i <= self.peers@.len() == self@.peers.len(),
                vals@ == Seq::new(i as nat, |j: int| self@.peers[j].match_index as u64),
            decreases self.peers.len() - i,
        {
            proof {
                self.lemma_view();
            }
            vals.push(self.peers[i].progress.match_index);
            i = i + 1;
            assert(vals@ =~= Seq::new(i as nat, |j: int| self@.peers[j].match_index as u64));
        }
        vals.push(self.log.len() as u64);
        assert(vals@ =~= self@.match_values());
        vals
    }

    /// Sets what is known of follower `peer`.
    fn set_progress(&mut self, peer: usize, next_index: u64, match_index: u64)
        requires
            old(self).wf(),
            peer < old(self)@.peers.len(),
            next_index >= 1,
        ensures
            final(self).wf(),
            final(self)@ == (RaftModel {
                peers: old(self)@.peers.update(
                    peer as int,
                    PeerModel {
                        addr: old(self)@.peers[peer as int].addr,
                        next_index: next_index as nat,
                        match_index: match_index as nat,
                    },
                ),
                ..old(self)@
            }),
    {
        proof {
            self.lemma_view();
        }
        let ghost before = self.peers@;
        let mut p = self.peers.remove(peer);
        p.progress.next_index = next_index;
        p.progress.match_index = match_index;
        self.peers.insert(peer, p);
        proof {
            self.lemma_view();
            assert forall|j: int| 0 <= j < self.peers@.len() && j != peer implies self.peers@[j]
                == before[j] by {
                if j < peer {
                    assert(self.peers@[j] == before.remove(peer as int)[j]);
                } else {
                    assert(self.peers@[j] == before.remove(peer as int)[j - 1]);
                }
            }
            assert(self@.peers =~= old(self)@.peers.update(
                peer as int,
                PeerModel {
                    addr: old(self)@.peers[peer as int].addr,
                    next_index: next_index as nat,
                    match_index: match_index as nat,
                },
            ));
        }
    }

    /// The index that a majority of the cluster is taken to hold.
    fn majority_index(&self) -> (r: u64)
        ensures
            r == self@.majority_index(),
    {
        let vals = self.match_values();
        kth_smallest(&vals, (vals.len() - 1) / 2)
    }

    /// Moves the commit index up to the majority index, if that is higher;
    /// gives the effects that hand the commands of the newly committed
    /// entries to the store, in order.
    fn commit_to_majority(&mut self) -> (r: Vec<Effect>)
        requires
            old(self).wf(),
        ensures
            final(self).wf(),
            ({
                let n = old(self)@.majority_index();
                if n > old(self)@.commit_index {
                    let s2 = RaftModel { commit_index: n as nat, ..old(self)@ };
                    &&& final(self)@ == s2
                    &&& effects_view(r@) == RaftModel::applies(
                        s2.log,
                        old(self)@.commit_index,
                        n as nat,
                    )
                } else {
                    &&& final(self)@ == old(self)@
                    &&& effects_view(r@) == Seq::<EffectModel>::empty()
                }
            }),
    {
        let n = self.majority_index();
        if n > self.commit_index {
            let old_commit = self.commit_index;
            self.commit_index = n;
            apply_range(&self.log, old_commit, n)
        } else {
            let effects: Vec<Effect> = Vec::new();
            assert(effects_view(effects@) =~= Seq::<EffectModel>::empty());
            effects
        }
    }

    /// Takes in follower `peer`'s answer to the heartbeat of `term` that
    /// carried `sent`; gives the effects, in order.
    pub fn on_append_response(
        &mut self,
        peer: usize,
        term: u64,
        sent: &Vec<LogEntry>,
        resp: &AppendEntriesResponse,
    ) -> (r: Vec<Effect>)
        requires
            old(self).wf(),
            peer < old(self)@.peers.len(),
            sent@.len() > 0 ==> sent@.last().index < u64::MAX,
        ensures
            final(self).wf(),
            (final(self)@, effects_view(r@)) == old(self)@.append_response(
                peer as int,
                term as nat,
                entries_view(sent@),
                resp.term as nat,
                resp.success,
            ),
    {
        if resp.success {
            if sent.len() > 0 {
                let last_index = sent[sent.len() - 1].index;
                assert(entries_view(sent@).last() == sent@.last()@);
                self.set_progress(peer, last_index + 1, last_index);
                self.commit_to_majority()
            } else {
                let effects: Vec<Effect> = Vec::new();
                assert(effects_view(effects@) =~= Seq::<EffectModel>::empty());
                effects
            }
        } else if resp.term > term {
            let e = self.become_follower(resp.term);
            let mut effects: Vec<Effect> = Vec::new();
            effects.push(e);
            assert(effects_view(effects@) =~= seq![e@]);
            effects
        } else {
            proof {
                self.lemma_view();
            }
            let next = self.peers[peer].progress.next_index;
            let matched = self.peers[peer].progress.match_index;
            let lowered = if next > 1 {
                next - 1
            } else {
                1
            };
            self.set_progress(peer, lowered, matched);
            let effects: Vec<Effect> = Vec::new();
            assert(effects_view(effects@) =~= Seq::<EffectModel>::empty());
            effects
        }
    }

    /// Decides on a proposal: only a leader takes one. Gives the entry to
    /// persist and then append with `append_proposed`.
    pub fn propose(&self, command: Vec<u8>) -> (r: Result<LogEntry, ProposeError>)
        requires
            self@.log.len() < u64::MAX,
        ensures
            self@.state != NodeState::Leader ==> r == Err::<LogEntry, ProposeError>(
                ProposeError::NotLeader,
            ),
            self@.state == NodeState::Leader ==> r is Ok && r->Ok_0@ == (EntryModel {
                term: self@.current_term,
                index: self@.log.len() + 1,
                command: command@,
            }),
    {
        if self.state != NodeState::Leader {
            return Err(ProposeError::NotLeader);
        }
        proof {
            self.lemma_view();
        }
        let index = self.log.len() as u64 + 1;
        Ok(LogEntry { term: self.current_term, index, command })
    }

    /// Appends a proposed entry once stable storage took it; an entry that
    /// could not be persisted is dropped.
    pub fn append_proposed(&mut self, entry: LogEntry, persisted: bool) -> (r: Result<(), ProposeError>)
        requires
            old(self).wf(),
        ensures
            final(self).wf(),
            persisted ==> r is Ok && final(self)@ == (RaftModel {
                log: old(self)@.log.push(entry@),
                ..old(self)@
            }),
            !persisted ==> r == Err::<(), ProposeError>(ProposeError::PersistenceFailure)
                && final(self)@ == old(self)@,
    {
        if !persisted {
            return Err(ProposeError::PersistenceFailure);
        }
        let ghost e = entry@;
        self.log.push(entry);
        assert(self@.log =~= old(self)@.log.push(e));
        Ok(())
    }

}

} // verus!
