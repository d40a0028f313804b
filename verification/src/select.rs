//! Client-side resolution of a player selector to live sessions.
//!
//! Given the user's selector and the currently enumerable sessions, the
//! resolution order is: all sessions when everything was asked for; else
//! the sessions whose identity contains a requested name, case-insensitively;
//! else whatever the daemon remembers, resolved by exact identity; and when
//! the daemon is unreachable or nothing it returned resolves, the playing
//! sessions, else the registry's single "active" session, else the first
//! session there is.

use vstd::prelude::*;
use vstd::string::StrSliceExecFns;
use crate::tracker::PlaybackStatus;

verus! {

/// The user's choice of players: everything, named players, or (with both
/// empty) whatever is active.
#[derive(Debug)]
pub struct PlayerSelector {
    pub all_players: bool,
    pub player: Vec<String>,
}

/// The command-line surface of the control tool, as plain data.
#[derive(Debug)]
pub struct Cli {
    pub player_selector: PlayerSelector,
    pub socket: String,
    pub command: Commands,
}

/// The commands the control tool can send to a player.
#[derive(Debug, PartialEq, Eq)]
pub enum Commands {
    Play,
    Pause,
    Toggle,
    Prev,
    Next,
    Metadata(Metadata),
    Status,
    List,
}

/// Which metadata entry to show; everything when no key is given.
#[derive(Debug, PartialEq, Eq)]
pub struct Metadata {
    pub key: Option<String>,
}

/// One live session: its identity and current playback status.
#[derive(Debug)]
pub struct Session {
    pub identity: String,
    pub status: PlaybackStatus,
}

/// The character sequence that Unicode lowercasing yields; a function of
/// the input characters alone.
pub uninterp spec fn lower_of(s: Seq<char>) -> Seq<char>;

/// Relies on str::to_lowercase: the result depends only on the characters
/// of the input.
#[verifier::external_body]
fn lowercase(s: &str) -> (r: String)
    ensures
        r@ == lower_of(s@),
{
    s.to_lowercase()
}

/// `needle` occurs contiguously in `hay` starting at `i`.
pub open spec fn matches_at(hay: Seq<char>, needle: Seq<char>, i: int) -> bool {
    &&& 0 <= i
    &&& i + needle.len() <= hay.len()
    &&& hay.subrange(i, i + needle.len()) == needle
}

/// `needle` occurs contiguously somewhere in `hay`.
pub open spec fn is_substring_of(needle: Seq<char>, hay: Seq<char>) -> bool {
    exists|i: int| matches_at(hay, needle, i)
}

/// Does `needle` occur in `hay` starting at position `i`?
fn chars_match_at(hay: &str, needle: &str, i: usize) -> (r: bool)
    requires
        hay@.len() <= usize::MAX,
        i + needle@.len() <= hay@.len(),
    ensures
        r == matches_at(hay@, needle@, i as int),
{
    let nn = needle.unicode_len();
    let mut j: usize = 0;
    while j < nn
        invariant
            nn == needle@.len(),
            hay@.len() <= usize::MAX,
            i + nn <= hay@.len(),
            j <= nn,
            forall|q: int| 0 <= q < j ==> hay@[i + q] == needle@[q],
        decreases nn - j,
    {
        let hc = hay.get_char(i + j);
        let nc = needle.get_char(j);
        if hc != nc {
            proof {
                if matches_at(hay@, needle@, i as int) {
                    assert(hay@.subrange(i as int, i + needle@.len())[j as int]
                        == needle@[j as int]);
                }
            }
            return false;
        }
        j = j + 1;
    }
    proof {
        assert(hay@.subrange(i as int, i + needle@.len()) =~= needle@);
    }
    true
}

/// Substring search over the characters of two strings.
pub fn contains_chars(hay: &str, needle: &str) -> (r: bool)
    ensures
        r == is_substring_of(needle@, hay@),
{
    let hn = hay.unicode_len();
    let nn = needle.unicode_len();
    if nn > hn {
        proof {
            assert forall|i: int| !matches_at(hay@, needle@, i) by {}
        }
        return false;
    }
    if nn == 0 {
        proof {
            assert(hay@.subrange(0, 0) =~= needle@);
            assert(matches_at(hay@, needle@, 0));
        }
        return true;
    }
    let mut i: usize = 0;
    while i <= hn - nn
        invariant
            0 < nn <= hn,
            hn == hay@.len(),
            nn == needle@.len(),
            i <= hn - nn + 1,
            forall|p: int| 0 <= p < i ==> !matches_at(hay@, needle@, p),
        decreases hn - nn + 1 - i,
    {
        if chars_match_at(hay, needle, i) {
            return true;
        }
        i = i + 1;
    }
    proof {
        assert forall|p: int| !matches_at(hay@, needle@, p) by {
            if 0 <= p <= hn - nn {
                assert(!matches_at(hay@, needle@, p));
            }
        }
    }
    false
}

/// `name` selects `identity` when its lowercasing occurs in the identity's
/// lowercasing.
pub open spec fn name_matches(identity: Seq<char>, name: Seq<char>) -> bool {
    is_substring_of(lower_of(name), lower_of(identity))
}

/// Some requested name selects the identity.
pub open spec fn any_name_matches(identity: Seq<char>, names: Seq<Seq<char>>) -> bool {
    exists|k: int| 0 <= k < names.len() && name_matches(identity, names[k])
}

/// Does any of the requested names select this identity, case-insensitively,
/// by substring?
pub fn selector_matches(identity: &str, names: &Vec<String>) -> (r: bool)
    ensures
        r == any_name_matches(identity@, names.deep_view()),
{
    let low_id = lowercase(identity);
    let n = names.len();
    let mut k: usize = 0;
    while k < n
        invariant
            n == names@.len(),
            k <= n,
            low_id@ == lower_of(identity@),
            forall|p: int| 0 <= p < k ==> !name_matches(identity@, names.deep_view()[p]),
        decreases n - k,
    {
        let low_name = lowercase(names[k].as_str());
        if contains_chars(low_id.as_str(), low_name.as_str()) {
            proof {
                assert(name_matches(identity@, names.deep_view()[k as int]));
            }
            return true;
        }
        k = k + 1;
    }
    false
}

/// The segment of `s` after its last space; all of `s` when it has none.
pub open spec fn last_segment(s: Seq<char>) -> Seq<char>
    decreases s.len(),
{
    if s.len() == 0 {
        Seq::empty()
    } else if s.last() == ' ' {
        Seq::empty()
    } else {
        last_segment(s.drop_last()).push(s.last())
    }
}

/// The short form of a player identity: its last space-separated segment,
/// lowercased.
pub fn get_short_name(name: &str) -> (r: String)
    ensures
        r@ == lower_of(last_segment(name@)),
{
    let n = name.unicode_len();
    let mut start: usize = 0;
    let mut i: usize = 0;
    proof {
        assert(last_segment(name@.subrange(0, 0)) =~= name@.subrange(0, 0));
    }
    while i < n
        invariant
            n == name@.len(),
            start <= i <= n,
            last_segment(name@.subrange(0, i as int)) == name@.subrange(start as int, i as int),
        decreases n - i,
    {
        let c = name.get_char(i);
        proof {
            assert(name@.subrange(0, i + 1).drop_last() =~= name@.subrange(0, i as int));
            assert(name@.subrange(0, i + 1).last() == name@[i as int]);
        }
        if c == ' ' {
            start = i + 1;
            proof {
                assert(last_segment(name@.subrange(0, i + 1)) =~= name@.subrange(
                    start as int,
                    i + 1,
                ));
            }
        } else {
            proof {
                assert(last_segment(name@.subrange(0, i + 1)) =~= name@.subrange(
                    start as int,
                    i + 1,
                ));
            }
        }
        i = i + 1;
    }
    proof {
        assert(name@.subrange(0, n as int) =~= name@);
    }
    let tail = name.substring_char(start, n);
    lowercase(tail)
}

/// Every index below `n`, in order.
pub open spec fn all_indices(n: nat) -> Seq<usize> {
    Seq::new(n, |i: int| i as usize)
}

/// The indices of the sessions some requested name selects.
pub open spec fn matching_indices(sessions: Seq<Session>, names: Seq<Seq<char>>) -> Seq<usize>
    decreases sessions.len(),
{
    if sessions.len() == 0 {
        Seq::empty()
    } else {
        matching_indices(sessions.drop_last(), names) + if any_name_matches(
            sessions.last().identity@,
            names,
        ) {
            seq![(sessions.len() - 1) as usize]
        } else {
            Seq::empty()
        }
    }
}

/// Some remembered identity equals this one exactly.
pub open spec fn any_exact_match(identity: Seq<char>, names: Seq<Seq<char>>) -> bool {
    exists|k: int| 0 <= k < names.len() && names[k] == identity
}

/// The indices of the sessions whose identity is remembered exactly.
pub open spec fn exact_indices(sessions: Seq<Session>, names: Seq<Seq<char>>) -> Seq<usize>
    decreases sessions.len(),
{
    if sessions.len() == 0 {
        Seq::empty()
    } else {
        exact_indices(sessions.drop_last(), names) + if any_exact_match(
            sessions.last().identity@,
            names,
        ) {
            seq![(sessions.len() - 1) as usize]
        } else {
            Seq::empty()
        }
    }
}

/// The indices of the sessions that are playing right now.
pub open spec fn playing_indices(sessions: Seq<Session>) -> Seq<usize>
    decreases sessions.len(),
{
    if sessions.len() == 0 {
        Seq::empty()
    } else {
        playing_indices(sessions.drop_last()) + if sessions.last().status is Playing {
            seq![(sessions.len() - 1) as usize]
        } else {
            Seq::empty()
        }
    }
}

/// The resolution order, start to end: everything when asked; else named
/// matches; else the daemon's remembered players resolved exactly, when the
/// daemon answered and something resolves; else the playing sessions; else
/// the registry's active session; else the first session; else nothing.
pub open spec fn selection_spec(
    selector: PlayerSelector,
    sessions: Seq<Session>,
    daemon: Option<Vec<String>>,
    active: Option<usize>,
) -> Seq<usize> {
    if selector.all_players {
        all_indices(sessions.len())
    } else if selector.player@.len() > 0 {
        matching_indices(sessions, selector.player.deep_view())
    } else {
        let resolved = match daemon {
            Option::Some(names) => exact_indices(sessions, names.deep_view()),
            Option::None => Seq::empty(),
        };
        if daemon is Some && resolved.len() > 0 {
            resolved
        } else {
            let playing = playing_indices(sessions);
            if playing.len() > 0 {
                playing
            } else if active is Some && active->0 < sessions.len() {
                seq![active->0]
            } else if sessions.len() > 0 {
                seq![0usize]
            } else {
                Seq::empty()
            }
        }
    }
}

/// Resolve the selector against the live sessions: `daemon` is what the
/// daemon answered (nothing when it was unreachable or had no data), and
/// `active` is the registry's own notion of the single active session.
/// Returns indices into `sessions`, in enumeration order.
pub fn select_players(
    selector: &PlayerSelector,
    sessions: &Vec<Session>,
    daemon: &Option<Vec<String>>,
    active: Option<usize>,
) -> (r: Vec<usize>)
    ensures
        r@ == selection_spec(*selector, sessions@, *daemon, active),
{
    let n = sessions.len();
    if selector.all_players {
        let mut out: Vec<usize> = Vec::new();
        let mut i: usize = 0;
        while i < n
            invariant
                n == sessions@.len(),
                i <= n,
                out@ == all_indices(i as nat),
            decreases n - i,
        {
            out.push(i);
            proof {
                assert(out@ =~= all_indices((i + 1) as nat));
            }
            i = i + 1;
        }
        return out;
    }
    if selector.player.len() > 0 {
        let mut out: Vec<usize> = Vec::new();
        let mut i: usize = 0;
        while i < n
            invariant
                n == sessions@.len(),
                i <= n,
                out@ == matching_indices(sessions@.subrange(0, i as int), selector.player.deep_view()),
            decreases n - i,
        {
            proof {
                assert(sessions@.subrange(0, i + 1).drop_last() =~= sessions@.subrange(0, i as int));
                assert(sessions@.subrange(0, i + 1).last() == sessions@[i as int]);
            }
            if selector_matches(sessions[i].identity.as_str(), &selector.player) {
                out.push(i);
            }
            proof {
                assert(out@ =~= matching_indices(
                    sessions@.subrange(0, i + 1),
                    selector.player.deep_view(),
                ));
            }
            i = i + 1;
        }
        proof {
            assert(sessions@.subrange(0, n as int) =~= sessions@);
        }
        return out;
    }
    let mut resolved: Vec<usize> = Vec::new();
    match daemon {
        Option::Some(names) => {
            let mut i: usize = 0;
            while i < n
                invariant
                    n == sessions@.len(),
                    i <= n,
                    resolved@ == exact_indices(sessions@.subrange(0, i as int), names.deep_view()),
                decreases n - i,
            {
                proof {
                    assert(sessions@.subrange(0, i + 1).drop_last() =~= sessions@.subrange(
                        0,
                        i as int,
                    ));
                    assert(sessions@.subrange(0, i + 1).last() == sessions@[i as int]);
                }
                let mut hit = false;
                let m = names.len();
                let mut k: usize = 0;
                while k < m
                    invariant
                        m == names@.len(),
                        k <= m,
                        n == sessions@.len(),
                        i < n,
                        hit ==> any_exact_match(sessions@[i as int].identity@, names.deep_view()),
                        !hit ==> forall|p: int|
                            0 <= p < k ==> names.deep_view()[p] != sessions@[i as int].identity@,
                    decreases m - k,
                {
                    if !hit {
                        if names[k] == sessions[i].identity {
                            proof {
                                assert(names.deep_view()[k as int]
                                    == sessions@[i as int].identity@);
                            }
                            hit = true;
                        }
                    }
                    k = k + 1;
                }
                if hit {
                    resolved.push(i);
                }
                proof {
                    assert(resolved@ =~= exact_indices(
                        sessions@.subrange(0, i + 1),
                        names.deep_view(),
                    ));
                }
                i = i + 1;
            }
            proof {
                assert(sessions@.subrange(0, n as int) =~= sessions@);
            }
            if resolved.len() > 0 {
                return resolved;
            }
        },
        Option::None => {},
    }
    let mut playing: Vec<usize> = Vec::new();
    let mut i: usize = 0;
    while i < n
        invariant
            n == sessions@.len(),
            i <= n,
            playing@ == playing_indices(sessions@.subrange(0, i as int)),
        decreases n - i,
    {
        proof {
            assert(sessions@.subrange(0, i + 1).drop_last() =~= sessions@.subrange(0, i as int));
            assert(sessions@.subrange(0, i + 1).last() == sessions@[i as int]);
        }
        if sessions[i].status == PlaybackStatus::Playing {
            playing.push(i);
        }
        proof {
            assert(playing@ =~= playing_indices(sessions@.subrange(0, i + 1)));
        }
        i = i + 1;
    }
    proof {
        assert(sessions@.subrange(0, n as int) =~= sessions@);
    }
    if playing.len() > 0 {
        return playing;
    }
    let mut out: Vec<usize> = Vec::new();
    match active {
        Option::Some(a) => {
            if a < n {
                out.push(a);
                proof {
                    assert(out@ =~= seq![a]);
                }
                return out;
            }
        },
        Option::None => {},
    }
    if n > 0 {
        out.push(0);
        proof {
            assert(out@ =~= seq![0usize]);
        }
        return out;
    }
    proof {
        assert(out@ =~= Seq::<usize>::empty());
    }
    out
}

} // verus!
