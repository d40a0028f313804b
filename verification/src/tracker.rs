//! The tracker that owns the last known set of active players.
//!
//! A polling loop hands `refresh` the latest enumeration of sessions; the
//! tracker keeps the identities whose status is `Playing`, but only ever
//! replaces its stored set wholesale, and never with an empty set: an empty
//! poll result leaves the previous state untouched.

use vstd::prelude::*;

verus! {

/// Playback state of one media session, as the registry reports it.
#[derive(Debug, Clone, Copy, PartialEq, Eq, Structural)]
pub enum PlaybackStatus {
    Playing,
    Paused,
    Stopped,
}

/// One entry of an enumeration round: a session's identity and status, or a
/// per-session failure (the session could not report itself), carrying a
/// description for the observability sink.
#[derive(Debug)]
pub enum Candidate {
    Session(String, PlaybackStatus),
    Failed(String),
}

/// What one `refresh` did: whether the stored set was replaced, and the
/// descriptions of the per-session failures met along the way, in
/// enumeration order, for the caller to report.
#[derive(Debug)]
pub struct RefreshOutcome {
    pub replaced: bool,
    pub failures: Vec<String>,
}

/// The identities, in enumeration order, of the candidates that are intact
/// and `Playing`. Failed entries are skipped, never fatal.
pub open spec fn playing_of(c: Seq<Candidate>) -> Seq<Seq<char>>
    decreases c.len(),
{
    if c.len() == 0 {
        Seq::empty()
    } else {
        playing_of(c.drop_last()) + match c.last() {
            Candidate::Session(id, st) => if st is Playing {
                seq![id@]
            } else {
                Seq::empty()
            },
            Candidate::Failed(_) => Seq::empty(),
        }
    }
}

/// The failure descriptions of an enumeration round, in order.
pub open spec fn failures_of(c: Seq<Candidate>) -> Seq<Seq<char>>
    decreases c.len(),
{
    if c.len() == 0 {
        Seq::empty()
    } else {
        failures_of(c.drop_last()) + match c.last() {
            Candidate::Session(_, _) => Seq::empty(),
            Candidate::Failed(e) => seq![e@],
        }
    }
}

/// The stored set after a refresh: the playing subsequence when it is
/// non-empty, else the previous state unchanged.
pub open spec fn refresh_spec(pre: Seq<Seq<char>>, c: Seq<Candidate>) -> Seq<Seq<char>> {
    if playing_of(c).len() == 0 {
        pre
    } else {
        playing_of(c)
    }
}

/// Owns the canonical "last known active players" sequence. Created empty;
/// written only by `refresh`, read by `snapshot`. Callers that share it
/// across tasks guard it with a mutual-exclusion primitive held only for
/// the duration of the call.
pub struct ActiveSetTracker {
    players: Vec<String>,
}

impl ActiveSetTracker {
    /// The stored sequence of player identities.
    pub closed spec fn active(&self) -> Seq<Seq<char>> {
        self.players.deep_view()
    }

    pub fn new() -> (t: ActiveSetTracker)
        ensures
            t.active() == Seq::<Seq<char>>::empty(),
    {
        let t = ActiveSetTracker { players: Vec::new() };
        proof {
            assert(t.active() =~= Seq::<Seq<char>>::empty());
        }
        t
    }

    /// Incorporate one enumeration round: replace the stored set with the
    /// playing identities if there are any, else keep the previous state.
    /// Per-session failures are collected, not propagated.
    pub fn refresh(&mut self, candidates: &Vec<Candidate>) -> (out: RefreshOutcome)
        ensures
            final(self).active() == refresh_spec(old(self).active(), candidates@),
            out.replaced == (playing_of(candidates@).len() > 0),
            out.failures.deep_view() == failures_of(candidates@),
    {
        let mut playing: Vec<String> = Vec::new();
        let mut failures: Vec<String> = Vec::new();
        let n = candidates.len();
        let mut i: usize = 0;
        proof {
            assert(playing.deep_view() =~= playing_of(candidates@.subrange(0, 0)));
            assert(failures.deep_view() =~= failures_of(candidates@.subrange(0, 0)));
        }
        while i < n
            invariant
                n == candidates@.len(),
                i <= n,
                playing.deep_view() == playing_of(candidates@.subrange(0, i as int)),
                failures.deep_view() == failures_of(candidates@.subrange(0, i as int)),
            decreases n - i,
        {
            let ghost pre_playing = playing.deep_view();
            let ghost pre_failures = failures.deep_view();
            match &candidates[i] {
                Candidate::Session(id, st) => {
                    if *st == PlaybackStatus::Playing {
                        playing.push(id.clone());
                    }
                },
                Candidate::Failed(e) => {
                    failures.push(e.clone());
                },
            }
            proof {
                let c = candidates@;
                assert(c.subrange(0, i + 1).drop_last() =~= c.subrange(0, i as int));
                assert(c.subrange(0, i + 1).last() == c[i as int]);
                match c[i as int] {
                    Candidate::Session(id, st) => {
                        if st is Playing {
                            assert(playing.deep_view() =~= pre_playing.push(id@));
                            assert(playing_of(c.subrange(0, i + 1)) =~= playing_of(
                                c.subrange(0, i as int),
                            ).push(id@));
                        } else {
                            assert(playing_of(c.subrange(0, i + 1)) =~= playing_of(
                                c.subrange(0, i as int),
                            ));
                        }
                        assert(failures_of(c.subrange(0, i + 1)) =~= failures_of(
                            c.subrange(0, i as int),
                        ));
                    },
                    Candidate::Failed(e) => {
                        assert(failures.deep_view() =~= pre_failures.push(e@));
                        assert(failures_of(c.subrange(0, i + 1)) =~= failures_of(
                            c.subrange(0, i as int),
                        ).push(e@));
                        assert(playing_of(c.subrange(0, i + 1)) =~= playing_of(
                            c.subrange(0, i as int),
                        ));
                    },
                }
            }
            i = i + 1;
        }
        proof {
            assert(candidates@.subrange(0, n as int) =~= candidates@);
        }
        let replaced = playing.len() > 0;
        if replaced {
            self.players = playing;
        }
        RefreshOutcome { replaced, failures }
    }

    /// A copy of the current stored sequence.
    pub fn snapshot(&self) -> (r: Vec<String>)
        ensures
            r.deep_view() == self.active(),
    {
        let mut r: Vec<String> = Vec::new();
        let n = self.players.len();
        let mut i: usize = 0;
        proof {
            assert(r.deep_view() =~= self.players.deep_view().subrange(0, 0));
        }
        while i < n
            invariant
                n == self.players@.len(),
                i <= n,
                r.deep_view() == self.players.deep_view().subrange(0, i as int),
            decreases n - i,
        {
            let ghost pre = r.deep_view();
            r.push(self.players[i].clone());
            proof {
                assert(r.deep_view() =~= pre.push(self.players@[i as int]@));
                assert(self.players.deep_view().subrange(0, i + 1) =~= self.players.deep_view()
                    .subrange(0, i as int).push(self.players@[i as int]@));
            }
            i = i + 1;
        }
        proof {
            assert(self.players.deep_view().subrange(0, n as int) =~= self.players.deep_view());
        }
        r
    }
}

/// An empty playing subsequence never regresses the stored state: a refresh
/// whose candidates yield no playing session leaves the tracker exactly as
/// it was.
pub proof fn lemma_no_regression_on_empty_poll(pre: Seq<Seq<char>>, c: Seq<Candidate>)
    ensures
        playing_of(c).len() == 0 ==> refresh_spec(pre, c) == pre,
{
}

/// A refresh moves the state wholesale: the state after it is either the
/// state before it or the full playing subsequence of the candidates,
/// never anything in between. Together with `snapshot` returning exactly
/// the stored value, any read interleaved with a refresh under mutual
/// exclusion observes the pre- or the post-refresh sequence.
pub proof fn lemma_refresh_wholesale(pre: Seq<Seq<char>>, c: Seq<Candidate>)
    ensures
        refresh_spec(pre, c) == pre || refresh_spec(pre, c) == playing_of(c),
{
}

/// One failed session does not disturb the rest: the playing identities of
/// an enumeration with a failed entry are exactly those of the enumeration
/// with that entry removed.
pub proof fn lemma_session_isolation(c: Seq<Candidate>, i: int)
    requires
        0 <= i < c.len(),
        c[i] is Failed,
    ensures
        playing_of(c) == playing_of(c.remove(i)),
    decreases c.len(),
{
    if i == c.len() - 1 {
        assert(c.remove(i) =~= c.drop_last());
    } else {
        assert(c.remove(i).drop_last() =~= c.drop_last().remove(i));
        assert(c.remove(i).last() == c.last());
        lemma_session_isolation(c.drop_last(), i);
    }
}

/// What one poll tick found: either the registry was unreachable, or an
/// enumeration with possible per-session failures.
pub enum PollResult {
    RegistryUnavailable(String),
    Enumerated(Vec<Candidate>),
}

/// What the tick decided, for the caller to report.
#[derive(Debug)]
pub enum PollOutcome {
    RegistryUnavailable(String),
    Refreshed(RefreshOutcome),
}

/// One tick of the polling loop, on already-fetched data: an unreachable
/// registry leaves the state untouched and is reported; an enumeration is
/// handed to `refresh`.
pub fn poll_step(tracker: &mut ActiveSetTracker, polled: PollResult) -> (out: PollOutcome)
    ensures
        match polled {
            PollResult::RegistryUnavailable(e) => {
                &&& final(tracker).active() == old(tracker).active()
                &&& out matches PollOutcome::RegistryUnavailable(m) && m@ == e@
            },
            PollResult::Enumerated(c) => {
                &&& final(tracker).active() == refresh_spec(old(tracker).active(), c@)
                &&& out matches PollOutcome::Refreshed(o) && o.replaced == (playing_of(c@).len()
                    > 0) && o.failures.deep_view() == failures_of(c@)
            },
        },
{
    match polled {
        PollResult::RegistryUnavailable(e) => PollOutcome::RegistryUnavailable(e),
        PollResult::Enumerated(c) => PollOutcome::Refreshed(tracker.refresh(&c)),
    }
}

} // verus!
