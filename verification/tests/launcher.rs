use tyla::desktop::DesktopEntry;
use tyla::fuzzy::Score;
use tyla::launcher::{Action, Launcher, Msg};

fn entry(name: &str, cmd: &str) -> DesktopEntry {
    DesktopEntry { name: name.to_string(), icon: None, cmd: cmd.to_string(), terminal: false }
}

fn launcher() -> Launcher {
    Launcher::new(vec![entry("Firefox", "firefox"), entry("Files", "nautilus"), entry("Terminal", "gnome-terminal")])
}

fn type_text(l: &mut Launcher, t: &str) -> Action {
    assert!(l.can_search(t));
    l.update(Msg::SearchTextChanged(t.to_string()))
}

fn order(l: &Launcher) -> Vec<usize> {
    l.results().iter().map(|r| r.1).collect()
}

#[test]
fn starts_empty() {
    let l = launcher();
    assert_eq!(l.search_text(), "");
    assert!(l.results().is_empty());
    assert_eq!(l.selected(), None);
    assert_eq!(l.exec_error(), None);
    assert_eq!(l.entries().len(), 3);
}

#[test]
fn typing_ranks_every_entry() {
    let mut l = launcher();
    assert!(matches!(type_text(&mut l, "fire"), Action::Nothing));
    assert_eq!(l.search_text(), "fire");
    // Firefox: name "Firefox" vs "fire" is 4/7 ("F" differs), cmd "firefox" 3/7.
    assert_eq!(l.results()[0], (Score { distance: 3, longest: 7 }, 0));
    assert_eq!(l.results().len(), 3);
    let mut idx = order(&l);
    idx.sort();
    assert_eq!(idx, vec![0, 1, 2]);
}

#[test]
fn scores_are_capped_at_one_and_ties_keep_entry_order() {
    let mut l = Launcher::new(vec![entry("abc", "abc"), entry("xyz", "xyz")]);
    type_text(&mut l, "q");
    assert_eq!(l.results(), &[(Score { distance: 1, longest: 1 }, 0), (Score { distance: 1, longest: 1 }, 1)]);
    type_text(&mut l, "xyz");
    assert_eq!(order(&l), vec![1, 0]);
    assert_eq!(l.results()[0].0, Score { distance: 0, longest: 3 });
}

#[test]
fn clearing_the_text_clears_the_results() {
    let mut l = launcher();
    type_text(&mut l, "fi");
    type_text(&mut l, "");
    assert!(l.results().is_empty());
    assert_eq!(l.search_text(), "");
}

#[test]
fn arrows_walk_through_the_results() {
    let mut l = launcher();
    type_text(&mut l, "files");
    let first = order(&l)[0];
    assert_eq!(first, 1);
    assert!(matches!(l.update(Msg::DownPressed), Action::Nothing));
    assert_eq!(l.selected(), Some(0));
    assert_eq!(l.search_text(), "nautilus");
    l.update(Msg::DownPressed);
    assert_eq!(l.selected(), Some(1));
    l.update(Msg::UpPressed);
    assert_eq!(l.selected(), Some(0));
    assert_eq!(l.search_text(), "nautilus");
    l.update(Msg::UpPressed);
    assert_eq!(l.selected(), None);
    assert_eq!(l.search_text(), "files");
}

#[test]
fn up_with_nothing_picked_takes_the_last_result() {
    let mut l = launcher();
    type_text(&mut l, "files");
    let last = *order(&l).last().unwrap();
    l.update(Msg::UpPressed);
    assert_eq!(l.selected(), Some(2));
    assert_eq!(l.search_text(), l.entries()[last].cmd);
    // below the last result nothing is picked and the text stays
    l.update(Msg::DownPressed);
    assert_eq!(l.selected(), None);
    assert_eq!(l.search_text(), l.entries()[last].cmd);
}

#[test]
fn arrows_without_results_change_nothing() {
    let mut l = launcher();
    l.update(Msg::UpPressed);
    l.update(Msg::DownPressed);
    assert_eq!(l.selected(), None);
    assert_eq!(l.search_text(), "");
}

#[test]
fn enter_on_empty_text_exits() {
    let mut l = launcher();
    assert!(matches!(l.update(Msg::EnterPressed), Action::Exit));
}

#[test]
fn enter_spawns_the_shell_words() {
    let mut l = launcher();
    type_text(&mut l, "echo 'a b' c\\ d \"e\"");
    match l.update(Msg::EnterPressed) {
        Action::Spawn(args) => assert_eq!(args, vec!["echo", "a b", "c d", "e"]),
        _ => panic!("expected a spawn"),
    }
}

#[test]
fn enter_on_blank_text_reports_an_error() {
    let mut l = launcher();
    type_text(&mut l, "   ");
    assert!(matches!(l.update(Msg::EnterPressed), Action::Nothing));
    assert_eq!(l.exec_error(), Some("No command to execute (String is empty)"));
    // typing clears the error
    type_text(&mut l, "x");
    assert_eq!(l.exec_error(), None);
}

#[test]
fn ctrl_enter_runs_the_text_in_a_shell() {
    let mut l = launcher();
    type_text(&mut l, "ls | wc -l");
    match l.update(Msg::CtrlEnterPressed) {
        Action::Spawn(args) => assert_eq!(args, vec!["/bin/sh", "-c", "ls | wc -l"]),
        _ => panic!("expected a spawn"),
    }
}

#[test]
fn escape_exits_and_font_messages_change_nothing() {
    let mut l = launcher();
    assert!(matches!(l.update(Msg::EscapePressed), Action::Exit));
    assert!(matches!(l.update(Msg::FontLoaded), Action::Nothing));
    assert!(matches!(l.update(Msg::CouldNotLoadFont), Action::Nothing));
    assert_eq!(l.search_text(), "");
}

#[test]
fn failed_spawns_are_reported() {
    let mut l = launcher();
    l.spawn_failed("No such file or directory (os error 2)");
    assert_eq!(l.exec_error(), Some("Could not spawn child: No such file or directory (os error 2)"));
}

#[test]
fn the_same_text_gives_the_same_ranking() {
    let mut l = launcher();
    type_text(&mut l, "term");
    let first: Vec<(Score, usize)> = l.results().to_vec();
    type_text(&mut l, "x");
    type_text(&mut l, "term");
    assert_eq!(l.results(), first.as_slice());
}

#[test]
fn down_then_up_restores_and_up_then_down_returns() {
    let mut l = launcher();
    type_text(&mut l, "fi");
    l.update(Msg::DownPressed);
    l.update(Msg::UpPressed);
    assert_eq!(l.selected(), None);
    assert_eq!(l.search_text(), "fi");
    l.update(Msg::DownPressed);
    l.update(Msg::DownPressed);
    let (picked, text) = (l.selected(), l.search_text().to_string());
    l.update(Msg::UpPressed);
    l.update(Msg::DownPressed);
    assert_eq!((l.selected(), l.search_text().to_string()), (picked, text));
}

#[test]
fn results_list_every_entry_once() {
    let mut l = launcher();
    for t in ["f", "term", "gnome_terminal", "zzz"] {
        type_text(&mut l, t);
        let mut idx = order(&l);
        idx.sort();
        assert_eq!(idx, vec![0, 1, 2], "term {t:?}");
    }
}
