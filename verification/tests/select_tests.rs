use mpris_ctl::select::{
    contains_chars, get_short_name, select_players, selector_matches, PlayerSelector, Session,
};
use mpris_ctl::tracker::PlaybackStatus;

fn session(name: &str, status: PlaybackStatus) -> Session {
    Session { identity: String::from(name), status }
}

fn live_foo_bar() -> Vec<Session> {
    vec![
        session("Foo", PlaybackStatus::Playing),
        session("Bar", PlaybackStatus::Playing),
    ]
}

fn nobody(player: Vec<String>) -> PlayerSelector {
    PlayerSelector { all_players: false, player }
}

#[test]
fn selector_bar_matches_only_bar_case_insensitively() {
    let selected = select_players(
        &nobody(vec![String::from("bar")]),
        &live_foo_bar(),
        &None,
        None,
    );
    assert_eq!(selected, vec![1]);
}

#[test]
fn selector_matches_by_substring() {
    assert!(selector_matches("Spotify Premium", &vec![String::from("PREM")]));
    assert!(!selector_matches("Spotify Premium", &vec![String::from("vlc")]));
    assert!(selector_matches(
        "VLC media player",
        &vec![String::from("nope"), String::from("Media")]
    ));
}

#[test]
fn contains_chars_is_plain_substring_search() {
    assert!(contains_chars("hello", "ell"));
    assert!(contains_chars("hello", ""));
    assert!(!contains_chars("hello", "elo"));
    assert!(!contains_chars("he", "hello"));
}

#[test]
fn all_players_selects_everything() {
    let selected = select_players(
        &PlayerSelector { all_players: true, player: vec![] },
        &live_foo_bar(),
        &None,
        None,
    );
    assert_eq!(selected, vec![0, 1]);
}

#[test]
fn daemon_names_resolve_by_exact_match() {
    let selected = select_players(
        &nobody(vec![]),
        &live_foo_bar(),
        &Some(vec![String::from("Bar")]),
        None,
    );
    assert_eq!(selected, vec![1]);
}

#[test]
fn unresolvable_daemon_names_fall_back_to_playing() {
    let sessions = vec![
        session("Foo", PlaybackStatus::Paused),
        session("Bar", PlaybackStatus::Playing),
    ];
    let selected = select_players(
        &nobody(vec![]),
        &sessions,
        &Some(vec![String::from("Gone")]),
        None,
    );
    assert_eq!(selected, vec![1]);
}

#[test]
fn no_daemon_no_playing_takes_the_active_session() {
    let sessions = vec![
        session("Foo", PlaybackStatus::Paused),
        session("Bar", PlaybackStatus::Stopped),
    ];
    let selected = select_players(&nobody(vec![]), &sessions, &None, Some(1));
    assert_eq!(selected, vec![1]);
}

#[test]
fn no_active_takes_the_first_session() {
    let sessions = vec![
        session("Foo", PlaybackStatus::Paused),
        session("Bar", PlaybackStatus::Stopped),
    ];
    let selected = select_players(&nobody(vec![]), &sessions, &None, None);
    assert_eq!(selected, vec![0]);
}

#[test]
fn nothing_enumerable_selects_nothing() {
    let selected = select_players(&nobody(vec![]), &vec![], &None, None);
    assert_eq!(selected, Vec::<usize>::new());
}

#[test]
fn short_name_is_last_segment_lowercased() {
    assert_eq!(get_short_name("VLC media player"), "player");
    assert_eq!(get_short_name("Firefox"), "firefox");
    assert_eq!(get_short_name("Spotify PREMIUM"), "premium");
    assert_eq!(get_short_name(""), "");
    assert_eq!(get_short_name("trailing "), "");
}
