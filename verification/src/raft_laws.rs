use vstd::prelude::*;
use crate::raft_node::{
    count_le, count_lt, is_rank_candidate, EffectModel, lemma_count_le_all, lemma_max_exists, order_statistic,
    EntryModel, NodeState, RaftModel,
};

verus! {

/// A node that has voted in its current term refuses every other candidate of
/// that term and keeps its vote.
pub proof fn lemma_one_vote_per_term(s: RaftModel, c: nat, other: nat)
    requires
        s.voted_for == Some(c),
        other != c,
    ensures
        !s.request_vote(s.current_term, other).1.1,
        s.request_vote(s.current_term, other).0 == s,
{
}

/// A granted vote is recorded, in the term of the request.
pub proof fn lemma_grant_records_vote(s: RaftModel, t: nat, c: nat)
    requires
        s.request_vote(t, c).1.1,
    ensures
        s.request_vote(t, c).0.voted_for == Some(c),
        s.request_vote(t, c).0.current_term == t,
        s.request_vote(t, c).1.0 == t,
{
}

/// A heartbeat of the current term leaves the vote as it was.
pub proof fn lemma_heartbeat_keeps_vote(
    s: RaftModel,
    prev: nat,
    prev_term: nat,
    commit: nat,
    entries: Seq<EntryModel>,
)
    ensures
        s.append_entries(s.current_term, prev, prev_term, commit, entries).0.voted_for == s.voted_for,
        s.append_entries(s.current_term, prev, prev_term, commit, entries).0.current_term
            == s.current_term,
{
}

/// A request of an older term is refused and changes nothing.
pub proof fn lemma_stale_refused(
    s: RaftModel,
    t: nat,
    c: nat,
    prev: nat,
    prev_term: nat,
    commit: nat,
    entries: Seq<EntryModel>,
)
    requires
        t < s.current_term,
    ensures
        s.request_vote(t, c).0 == s,
        !s.request_vote(t, c).1.1,
        s.append_entries(t, prev, prev_term, commit, entries).0 == s,
        !s.append_entries(t, prev, prev_term, commit, entries).1.1,
{
}

/// A vote request of a newer term is granted, whatever vote the node cast in
/// an older term: the node moves to that term as a follower and records its
/// vote for the candidate.
pub proof fn lemma_newer_term_grants_vote(s: RaftModel, t: nat, c: nat)
    requires
        t > s.current_term,
    ensures
        s.request_vote(t, c).1 == (t, true),
        s.request_vote(t, c).0.voted_for == Some(c),
        s.request_vote(t, c).0.current_term == t,
        s.request_vote(t, c).0.state == NodeState::Follower,
{
}

/// A follower never commits past what the leader committed: after any
/// heartbeat its commit index is at most the larger of its old commit index
/// and the leader's commit index.
pub proof fn lemma_commit_within_leader(
    s: RaftModel,
    t: nat,
    prev: nat,
    prev_term: nat,
    commit: nat,
    entries: Seq<EntryModel>,
)
    ensures
        s.append_entries(t, prev, prev_term, commit, entries).0.commit_index <= if commit
            > s.commit_index {
            commit
        } else {
            s.commit_index
        },
{
}

/// A leader whose heartbeat is refused with a newer term steps down: it
/// becomes a follower in that term with no vote, and persists exactly that.
pub proof fn lemma_refusal_with_newer_term_deposes(
    s: RaftModel,
    peer: int,
    term: nat,
    sent: Seq<EntryModel>,
    resp_term: nat,
)
    requires
        resp_term > term,
    ensures
        s.append_response(peer, term, sent, resp_term, false).0.state == NodeState::Follower,
        s.append_response(peer, term, sent, resp_term, false).0.current_term == resp_term,
        s.append_response(peer, term, sent, resp_term, false).0.voted_for is None,
        s.append_response(peer, term, sent, resp_term, false).1 == seq![
            EffectModel::SaveMetadata { term: resp_term, voted_for: None },
        ],
{
}

/// Starting an election makes the node a candidate in the next term that has
/// voted for itself, persists that term and vote, and so refuses every other
/// candidate of that term.
pub proof fn lemma_candidate_votes_for_itself(s: RaftModel, other: nat)
    requires
        other != s.id,
    ensures
        s.start_election().0.state == NodeState::Candidate,
        s.start_election().0.current_term == s.current_term + 1,
        s.start_election().0.voted_for == Some(s.id),
        s.start_election().1 == (EffectModel::SaveMetadata {
            term: s.current_term + 1,
            voted_for: Some(s.id),
        }),
        !s.start_election().0.request_vote(s.current_term + 1, other).1.1,
{
}

/// A vote is granted exactly when the request's term is not older than the
/// node's and, in the node's own term, it has not voted for another
/// candidate; a granted vote is recorded for the candidate in the request's
/// term.
pub proof fn lemma_vote_granted_iff(s: RaftModel, t: nat, c: nat)
    ensures
        s.request_vote(t, c).1.1 <==> (t > s.current_term || (t == s.current_term && (
        s.voted_for is None || s.voted_for == Some(c)))),
        s.request_vote(t, c).1.1 ==> s.request_vote(t, c).0.voted_for == Some(c)
            && s.request_vote(t, c).0.current_term == t,
        s.request_vote(t, c).1.0 == if t > s.current_term {
            t
        } else {
            s.current_term
        },
{
}

/// A heartbeat the follower takes sets its commit index to the leader's
/// commit index, as far as the entries it was sent reach, unless its own was
/// already higher.
pub proof fn lemma_taken_heartbeat_commit(
    s: RaftModel,
    t: nat,
    prev: nat,
    prev_term: nat,
    commit: nat,
    entries: Seq<EntryModel>,
)
    requires
        s.append_entries(t, prev, prev_term, commit, entries).1.1,
    ensures
        ({
            let reach = if commit < prev + entries.len() {
                commit
            } else {
                prev + entries.len()
            };
            s.append_entries(t, prev, prev_term, commit, entries).0.commit_index == if reach
                > s.commit_index {
                reach
            } else {
                s.commit_index
            }
        }),
{
}

/// A leader's answer from a follower: a success moves the follower's progress
/// to the last entry sent and keeps the leader in its term; the commit index
/// never falls, and a commit index it raises is held by more than half the
/// cluster. A refusal of the same or an older term moves the follower's next
/// index back by one, down to 1, and changes nothing else.
pub proof fn lemma_append_response_progress(
    s: RaftModel,
    peer: int,
    term: nat,
    sent: Seq<EntryModel>,
    resp_term: nat,
    success: bool,
)
    requires
        0 <= peer < s.peers.len(),
    ensures
        ({
            let (s2, _) = s.append_response(peer, term, sent, resp_term, success);
            &&& success ==> s2.current_term == s.current_term && s2.state == s.state
                && s2.commit_index >= s.commit_index && s2.log == s.log
            &&& success && sent.len() > 0 ==> s2.peers[peer].match_index == sent.last().index
                && s2.peers[peer].next_index == sent.last().index + 1
            &&& success && s2.commit_index > s.commit_index ==> 2 * (s2.match_values().len()
                - count_lt(s2.match_values(), s2.commit_index as u64)) > s2.match_values().len()
            &&& !success && resp_term <= term ==> s2.current_term == s.current_term && s2.state
                == s.state && s2.commit_index == s.commit_index && s2.log == s.log
                && s2.peers.len() == s.peers.len() && s2.peers[peer].match_index
                == s.peers[peer].match_index && s2.peers[peer].next_index == (if s.peers[peer].next_index
                > 1 {
                s.peers[peer].next_index - 1
            } else {
                1
            }) && forall|j: int| 0 <= j < s.peers.len() && j != peer ==> s2.peers[j] == s.peers[j]
        }),
{
    let (s2, _) = s.append_response(peer, term, sent, resp_term, success);
    if success && sent.len() > 0 {
        let last = sent.last();
        let s1 = RaftModel {
            peers: s.peers.update(
                peer,
                crate::raft_node::PeerModel {
                    addr: s.peers[peer].addr,
                    next_index: last.index + 1,
                    match_index: last.index,
                },
            ),
            ..s
        };
        lemma_majority_index_held(s1);
        assert(s1.match_values() == s2.match_values());
    }
}

/// Becoming leader sends every follower the log from its end on, with nothing
/// yet known to match, and keeps term, vote, log and commit index.
pub proof fn lemma_new_leader_progress(s: RaftModel)
    ensures
        s.become_leader().state == NodeState::Leader,
        s.become_leader().peers.len() == s.peers.len(),
        forall|j: int|
            0 <= j < s.peers.len() ==> (#[trigger] s.become_leader().peers[j]).next_index
                == s.log.len() + 1 && s.become_leader().peers[j].match_index == 0
                && s.become_leader().peers[j].addr == s.peers[j].addr,
        s.become_leader().current_term == s.current_term,
        s.become_leader().voted_for == s.voted_for,
        s.become_leader().log == s.log,
        s.become_leader().commit_index == s.commit_index,
{
}

/// Answering vote requests and heartbeats, starting an election and stepping
/// down on a newer term never lower the term; a heartbeat or vote request of
/// a newer term is adopted.
pub proof fn lemma_term_monotonic(
    s: RaftModel,
    t: nat,
    c: nat,
    prev: nat,
    prev_term: nat,
    commit: nat,
    entries: Seq<EntryModel>,
    peer: int,
    sent: Seq<EntryModel>,
    resp_term: nat,
    success: bool,
)
    requires
        t >= s.current_term,
        0 <= peer < s.peers.len(),
    ensures
        s.request_vote(t, c).0.current_term == t,
        s.append_entries(t, prev, prev_term, commit, entries).0.current_term == t,
        s.append_entries(t, prev, prev_term, commit, entries).0.state == NodeState::Follower,
        s.start_election().0.current_term == s.current_term + 1,
        s.append_response(peer, t, sent, resp_term, success).0.current_term >= s.current_term,
{
}

/// Whether every entry of the log carries its own position, counted from 1.
pub open spec fn indexed(log: Seq<EntryModel>) -> bool {
    forall|i: int| 0 <= i < log.len() ==> #[trigger] log[i].index == i + 1
}

/// What placing entries after `prev` keeps and places.
proof fn lemma_merge(log: Seq<EntryModel>, prev: nat, entries: Seq<EntryModel>)
    requires
        prev <= log.len(),
    ensures
        ({
            let (m, fx) = RaftModel::merge(log, prev, entries);
            &&& m.len() >= prev + entries.len()
            &&& m.take(prev as int) == log.take(prev as int)
            &&& forall|j: int|
                0 <= j < entries.len() ==> (#[trigger] m[prev + j]).term == entries[j].term
            &&& (indexed(log) && RaftModel::consecutive(prev, entries)) ==> indexed(m)
            &&& forall|j: int| 0 <= j < fx.len() ==> !(#[trigger] fx[j] is Apply)
        }),
    decreases entries.len(),
{
    if entries.len() > 0 {
        let es = entries.drop_last();
        lemma_merge(log, prev, es);
        let (l, fx) = RaftModel::merge(log, prev, es);
        let p = prev + entries.len() - 1;
        let e = entries.last();
        let (m, fx2) = RaftModel::merge(log, prev, entries);
        assert forall|j: int| 0 <= j < es.len() implies entries[j] == #[trigger] es[j] by {}
        if p < l.len() {
            if l[p].term == e.term {
                assert(m == l);
                if indexed(log) && RaftModel::consecutive(prev, entries) {
                    assert forall|j: int| 0 <= j < es.len() implies #[trigger] es[j].index == prev + j + 1 by {
                        assert(entries[j].index == prev + j + 1);
                    }
                }
            } else {
                assert(m.take(prev as int) =~= l.take(prev as int));
                assert forall|j: int| 0 <= j < es.len() implies #[trigger] m[prev + j] == l[prev + j] by {}
                if indexed(log) && RaftModel::consecutive(prev, entries) {
                    assert forall|j: int| 0 <= j < es.len() implies #[trigger] es[j].index == prev + j + 1 by {
                        assert(entries[j].index == prev + j + 1);
                    }
                    assert(entries[entries.len() - 1].index == prev + entries.len());
                    assert forall|i: int| 0 <= i < m.len() implies #[trigger] m[i].index == i + 1 by {
                        if i < p {
                            assert(m[i] == l[i]);
                        }
                    }
                }
                assert forall|j: int| 0 <= j < fx2.len() implies !(#[trigger] fx2[j] is Apply) by {
                    if j >= fx.len() {
                        assert(fx2[j] == seq![EffectModel::TruncateLog(p as nat), EffectModel::PersistEntry(e)][j - fx.len()]);
                    }
                }
            }
        } else {
            assert(p == l.len());
            assert(m.take(prev as int) =~= l.take(prev as int));
            assert forall|j: int| 0 <= j < es.len() implies #[trigger] m[prev + j] == l[prev + j] by {}
            if indexed(log) && RaftModel::consecutive(prev, entries) {
                assert forall|j: int| 0 <= j < es.len() implies #[trigger] es[j].index == prev + j + 1 by {
                    assert(entries[j].index == prev + j + 1);
                }
                assert(entries[entries.len() - 1].index == prev + entries.len());
                assert forall|i: int| 0 <= i < m.len() implies #[trigger] m[i].index == i + 1 by {
                    if i < p {
                        assert(m[i] == l[i]);
                    }
                }
            }
        }
    }
}

/// A heartbeat that the follower takes leaves its log up to `prev` as it was
/// and puts the entries sent at the positions after `prev`, one after
/// another, each with the leader's term; a log in which every entry carries
/// its position keeps that shape. A heartbeat it refuses leaves the log as it
/// was. It takes a heartbeat of its term or newer exactly when its log holds
/// an entry of term `prev_term` at index `prev` (or `prev` is 0) and the
/// entries are numbered one after another from `prev + 1`.
pub proof fn lemma_heartbeat_places_entries(
    s: RaftModel,
    t: nat,
    prev: nat,
    prev_term: nat,
    commit: nat,
    entries: Seq<EntryModel>,
)
    ensures
        ({
            let (s2, (_, ok), _) = s.append_entries(t, prev, prev_term, commit, entries);
            &&& ok <==> (t >= s.current_term && RaftModel::holds_prev(s.log, prev, prev_term)
                && RaftModel::consecutive(prev, entries))
            &&& !ok ==> s2.log == s.log
            &&& ok ==> {
                &&& s2.log.len() >= prev + entries.len()
                &&& s2.log.take(prev as int) == s.log.take(prev as int)
                &&& forall|j: int|
                    0 <= j < entries.len() ==> (#[trigger] s2.log[prev + j]).term == entries[j].term
                &&& indexed(s.log) ==> indexed(s2.log)
                    && forall|j: int|
                    0 <= j < entries.len() ==> (#[trigger] s2.log[prev + j]).index == entries[j].index
            }
        }),
{
    if t >= s.current_term && RaftModel::holds_prev(s.log, prev, prev_term) && RaftModel::consecutive(
        prev,
        entries,
    ) {
        lemma_merge(s.log, prev, entries);
        let m = RaftModel::merge(s.log, prev, entries).0;
        if indexed(s.log) {
            assert forall|j: int| 0 <= j < entries.len() implies (#[trigger] m[prev + j]).index
                == entries[j].index by {
                assert(entries[j].index == prev + j + 1);
                assert(m[prev + j].index == prev + j + 1);
            }
        }
    }
}

/// A follower takes the heartbeat a leader sends from its log exactly when
/// it holds the entry before them with the leader's term; it then holds, from
/// that entry to the end of the leader's log, entries of the same index and
/// term as the leader's, where every entry of both logs carries its position.
pub proof fn lemma_replication_agrees(
    leader_log: Seq<EntryModel>,
    next: nat,
    f: RaftModel,
    t: nat,
    commit: nat,
)
    requires
        indexed(leader_log),
        indexed(f.log),
        1 <= next <= leader_log.len() + 1,
        t >= f.current_term,
    ensures
        ({
            let prev = (next - 1) as nat;
            let entries = RaftModel::entries_from(leader_log, next);
            let pt = RaftModel::term_before(leader_log, next);
            let (f2, (_, ok), _) = f.append_entries(t, prev, pt, commit, entries);
            &&& ok <==> RaftModel::holds_prev(f.log, prev, pt)
            &&& ok ==> forall|i: int|
                prev <= i < leader_log.len() ==> (#[trigger] f2.log[i]).term == leader_log[i].term
                    && f2.log[i].index == leader_log[i].index
            &&& ok && prev > 0 ==> f2.log[prev - 1].term == leader_log[prev - 1].term
        }),
{
    let prev = (next - 1) as nat;
    let entries = RaftModel::entries_from(leader_log, next);
    let pt = RaftModel::term_before(leader_log, next);
    assert(entries.len() == leader_log.len() - prev);
    assert forall|j: int| 0 <= j < entries.len() implies #[trigger] entries[j].index == prev + j + 1 by {
        assert(entries[j] == leader_log[prev + j]);
    }
    lemma_heartbeat_places_entries(f, t, prev, pt, commit, entries);
    let f2 = f.append_entries(t, prev, pt, commit, entries).0;
    if RaftModel::holds_prev(f.log, prev, pt) {
        assert forall|i: int| prev <= i < leader_log.len() implies (#[trigger] f2.log[i]).term
            == leader_log[i].term && f2.log[i].index == leader_log[i].index by {
            assert(entries[i - prev] == leader_log[i]);
            assert(f2.log[prev + (i - prev)] == f2.log[i]);
        }
        if prev > 0 {
            assert(f2.log.take(prev as int)[prev - 1] == f.log.take(prev as int)[prev - 1]);
        }
    }
}

/// On a follower, a heartbeat never lowers the commit index, and a commit
/// index it raises lies within the log.
pub proof fn lemma_follower_commit(
    s: RaftModel,
    t: nat,
    prev: nat,
    prev_term: nat,
    commit: nat,
    entries: Seq<EntryModel>,
)
    ensures
        ({
            let s2 = s.append_entries(t, prev, prev_term, commit, entries).0;
            &&& s2.commit_index >= s.commit_index
            &&& s2.commit_index > s.commit_index ==> s2.commit_index <= s2.log.len()
        }),
{
    if t >= s.current_term && RaftModel::holds_prev(s.log, prev, prev_term) {
        lemma_merge(s.log, prev, entries);
    }
}

/// A heartbeat hands the store the command of every entry it newly commits,
/// once each and in index order, after all its other effects, none of which
/// hands over a command.
pub proof fn lemma_follower_applies_committed(
    s: RaftModel,
    t: nat,
    prev: nat,
    prev_term: nat,
    commit: nat,
    entries: Seq<EntryModel>,
)
    ensures
        ({
            let (s2, _, fx) = s.append_entries(t, prev, prev_term, commit, entries);
            let a = RaftModel::applies(s2.log, s.commit_index, s2.commit_index);
            &&& a.len() == s2.commit_index - s.commit_index
            &&& forall|j: int|
                0 <= j < a.len() ==> #[trigger] a[j] == EffectModel::Apply(
                    s2.log[s.commit_index + j].command,
                )
            &&& a.len() <= fx.len()
            &&& fx.subrange(fx.len() - a.len(), fx.len() as int) == a
            &&& forall|j: int| 0 <= j < fx.len() - a.len() ==> !(#[trigger] fx[j] is Apply)
        }),
{
    lemma_follower_commit(s, t, prev, prev_term, commit, entries);
    let (s2, _, fx) = s.append_entries(t, prev, prev_term, commit, entries);
    let a = RaftModel::applies(s2.log, s.commit_index, s2.commit_index);
    if t < s.current_term || !RaftModel::holds_prev(s.log, prev, prev_term) || !RaftModel::consecutive(
        prev,
        entries,
    ) {
        assert(a =~= Seq::<EffectModel>::empty());
        assert(fx.subrange(fx.len() - a.len(), fx.len() as int) =~= a);
    } else {
        lemma_merge(s.log, prev, entries);
        let fx0 = RaftModel::merge(s.log, prev, entries).1;
        let head = fx.len() - a.len() - fx0.len();
        assert forall|j: int| 0 <= j < fx.len() - a.len() implies !(#[trigger] fx[j] is Apply) by {
            if j >= head {
                assert(fx[j] == fx0[j - head]);
            }
        }
        assert(fx.subrange(fx.len() - a.len(), fx.len() as int) =~= a);
    }
}

/// A candidate that reaches the majority (half the cluster, plus one) holds
/// the votes of more than half the cluster.
pub proof fn lemma_majority_is_more_than_half(total: nat, votes: nat)
    requires
        votes >= total / 2 + 1,
    ensures
        2 * votes > total,
{
}

proof fn lemma_count_lt_le(s: Seq<u64>, v: u64, w: u64)
    requires
        forall|i: int| 0 <= i < s.len() && s[i] < v ==> s[i] <= w,
    ensures
        count_lt(s, v) <= count_le(s, w),
    decreases s.len(),
{
    if s.len() > 0 {
        assert forall|i: int| 0 <= i < s.drop_last().len() && s.drop_last()[i] < v implies s.drop_last()[i]
            <= w by {
            assert(s.drop_last()[i] == s[i]);
        }
        lemma_count_lt_le(s.drop_last(), v, w);
    }
}

proof fn lemma_count_lt_positive(s: Seq<u64>, v: u64) -> (m: int)
    requires
        count_lt(s, v) > 0,
    ensures
        0 <= m < s.len(),
        s[m] < v,
        forall|i: int| 0 <= i < s.len() && s[i] < v ==> s[i] <= s[m],
    decreases s.len(),
{
    let p = s.drop_last();
    if count_lt(p, v) > 0 {
        let m0 = lemma_count_lt_positive(p, v);
        if s.last() < v && s.last() > p[m0] {
            assert forall|i: int| 0 <= i < s.len() && #[trigger] s[i] < v implies s[i] <= s[s.len() - 1] by {
                if i < s.len() - 1 {
                    assert(p[i] == s[i]);
                }
            }
            s.len() - 1
        } else {
            assert forall|i: int| 0 <= i < s.len() && #[trigger] s[i] < v implies s[i] <= s[m0] by {
                if i < s.len() - 1 {
                    assert(p[i] == s[i]);
                }
            }
            m0
        }
    } else {
        assert forall|i: int| 0 <= i < s.len() && #[trigger] s[i] < v implies s[i] <= s[s.len() - 1] by {
            if i < s.len() - 1 {
                assert(p[i] == s[i]);
                if p[i] < v {
                    lemma_count_lt_has(p, v, i);
                }
            }
        }
        s.len() - 1
    }
}

proof fn lemma_count_lt_has(s: Seq<u64>, v: u64, i: int)
    requires
        0 <= i < s.len(),
        s[i] < v,
    ensures
        count_lt(s, v) > 0,
    decreases s.len(),
{
    if i < s.len() - 1 {
        assert(s.drop_last()[i] == s[i]);
        lemma_count_lt_has(s.drop_last(), v, i);
    }
}

/// The least candidate among the first `n` values, if any.
proof fn lemma_min_candidate(s: Seq<u64>, k: nat, n: int) -> (m: int)
    requires
        0 <= n <= s.len(),
    ensures
        m == -1 ==> forall|j: int| 0 <= j < n ==> !is_rank_candidate(s, k, #[trigger] s[j]),
        m != -1 ==> 0 <= m < n && is_rank_candidate(s, k, s[m]) && forall|j: int|
            0 <= j < n && is_rank_candidate(s, k, #[trigger] s[j]) ==> s[m] <= s[j],
    decreases n,
{
    if n == 0 {
        -1
    } else {
        let m0 = lemma_min_candidate(s, k, n - 1);
        if is_rank_candidate(s, k, s[n - 1]) && (m0 == -1 || s[n - 1] < s[m0]) {
            n - 1
        } else {
            m0
        }
    }
}

/// The k-th smallest value is the least value with more than k values at or
/// below it.
#[verifier::spinoff_prover]
#[verifier::rlimit(30)]
pub proof fn lemma_order_statistic(s: Seq<u64>, k: nat)
    requires
        k < s.len(),
    ensures
        is_rank_candidate(s, k, order_statistic(s, k)),
        forall|w: u64| #[trigger] is_rank_candidate(s, k, w) ==> order_statistic(s, k) <= w,
        count_lt(s, order_statistic(s, k)) <= k,
{
    let top = lemma_max_exists(s);
    lemma_count_le_all(s, s[top]);
    assert(is_rank_candidate(s, k, s[top]));
    let m = lemma_min_candidate(s, k, s.len() as int);
    assert(m != -1);
    assert forall|w: u64| #[trigger] is_rank_candidate(s, k, w) implies s[m] <= w by {
        let j = choose|j: int| 0 <= j < s.len() && s[j] == w;
        assert(is_rank_candidate(s, k, s[j]));
    }
    let o = order_statistic(s, k);
    assert(is_rank_candidate(s, k, o) && forall|w: u64| #[trigger] is_rank_candidate(s, k, w) ==> o
        <= w);
    if count_lt(s, o) > k {
        let b = lemma_count_lt_positive(s, o);
        lemma_count_lt_le(s, o, s[b]);
        assert(s.contains(s[b]));
        assert(is_rank_candidate(s, k, s[b]));
        assert(o <= s[b]);
    }
}

proof fn lemma_count_le_lt(s: Seq<u64>, v: u64, w: u64)
    requires
        v < w,
    ensures
        count_le(s, v) <= count_lt(s, w),
    decreases s.len(),
{
    if s.len() > 0 {
        lemma_count_le_lt(s.drop_last(), v, w);
    }
}

proof fn lemma_count_lt_bound(s: Seq<u64>, v: u64)
    ensures
        count_lt(s, v) <= s.len(),
    decreases s.len(),
{
    if s.len() > 0 {
        lemma_count_lt_bound(s.drop_last(), v);
    }
}

/// The index a leader commits to is the greatest index that more than half
/// the cluster holds: more than half the match values reach it, and no
/// greater index is reached by more than half of them.
pub proof fn lemma_majority_index_held(s: RaftModel)
    ensures
        s.match_values().contains(s.majority_index()),
        2 * (s.match_values().len() - count_lt(s.match_values(), s.majority_index()))
            > s.match_values().len(),
        forall|w: u64|
            w > s.majority_index() ==> 2 * (s.match_values().len() - #[trigger] count_lt(
                s.match_values(),
                w,
            )) <= s.match_values().len(),
{
    let v = s.match_values();
    let n = v.len();
    assert(n >= 1);
    let k = ((n - 1) / 2) as nat;
    assert(2 * k <= n - 1 && 2 * k + 2 >= n);
    lemma_order_statistic(v, k);
    let o = order_statistic(v, k);
    assert(o == s.majority_index());
    assert forall|w: u64| w > o implies 2 * (n - #[trigger] count_lt(v, w)) <= n by {
        lemma_count_le_lt(v, o, w);
        lemma_count_lt_bound(v, w);
    }
}

} // verus!
