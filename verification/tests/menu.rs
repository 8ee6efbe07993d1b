use rmenu::args::Args;
use rmenu::event::{decode, Event, Key};
use rmenu::menu::{MenuState, TerminalAction};
use rmenu::split::lines;
use rmenu::session::{exit_effect, handle_key, ExitEffect};

fn strings(items: &[&str]) -> Vec<String> {
    items.iter().map(|item| item.to_string()).collect()
}

fn options(receiving_stdin: bool, case_insensitive: bool) -> Args {
    Args { receiving_stdin, bottom_screen: false, case_insensitive, prompt: None }
}

fn menu_over(items: &[&str]) -> MenuState {
    MenuState::new(options(false, false), strings(items))
}

fn type_text(menu: &mut MenuState, text: &str) {
    for c in text.chars() {
        assert_eq!(menu.update(Event::Char(c)), None);
    }
}

fn shown(menu: &MenuState) -> Vec<String> {
    menu.get_filtered_matches(menu.search()).into_iter().cloned().collect()
}

fn cursor_is_in_range(menu: &MenuState) -> bool {
    menu.cursor() < shown(menu).len().max(1)
}

#[test]
fn a_new_menu_has_an_empty_query_and_the_cursor_on_the_first_match() {
    let menu = menu_over(&["alpha", "beta"]);
    assert_eq!(menu.search(), "");
    assert_eq!(menu.cursor(), 0);
    assert_eq!(menu.candidates(), &strings(&["alpha", "beta"]));
    assert_eq!(menu.args(), &options(false, false));
    assert_eq!(shown(&menu), strings(&["alpha", "beta"]));
}

#[test]
fn confirm_selects_the_first_match() {
    let mut menu = menu_over(&["alpha", "beta", "alphabet"]);
    type_text(&mut menu, "alpha");
    assert_eq!(menu.search(), "alpha");
    assert_eq!(shown(&menu), strings(&["alpha", "alphabet"]));
    assert_eq!(menu.cursor(), 0);
    assert_eq!(
        menu.update(Event::Confirm),
        Some(TerminalAction::Confirmed { text: "alpha".to_string(), selected: true })
    );
}

#[test]
fn confirm_without_a_match_gives_the_query() {
    let mut menu = menu_over(&["alpha", "beta"]);
    type_text(&mut menu, "zzz");
    assert!(shown(&menu).is_empty());
    let action = menu.update(Event::Confirm);
    assert_eq!(
        action,
        Some(TerminalAction::Confirmed { text: "zzz".to_string(), selected: false })
    );
    assert_eq!(
        exit_effect(action.unwrap(), false),
        ExitEffect::Spawn { command: "zzz".to_string(), args: Vec::new() }
    );
}

#[test]
fn piped_candidates_keep_their_order_and_are_printed() {
    let candidates = lines("foo\nbar\n");
    assert_eq!(candidates, strings(&["foo", "bar"]));
    let mut menu = MenuState::new(options(true, false), candidates);
    assert_eq!(menu.update(Event::NavigateRight), None);
    assert_eq!(menu.cursor(), 1);
    assert_eq!(menu.search(), "");
    let action = menu.update(Event::Confirm);
    assert_eq!(
        action,
        Some(TerminalAction::Confirmed { text: "bar".to_string(), selected: true })
    );
    assert_eq!(exit_effect(action.unwrap(), true), ExitEffect::Print("bar".to_string()));
}

#[test]
fn escape_cancels_and_changes_nothing_else() {
    let mut menu = menu_over(&["alpha", "beta", "alphabet"]);
    type_text(&mut menu, "al");
    assert_eq!(menu.update(Event::NavigateRight), None);
    assert_eq!(handle_key(&mut menu, Key::Escape, false), Some(ExitEffect::Terminate));
    assert_eq!(menu.search(), "al");
    assert_eq!(menu.cursor(), 1);
    assert_eq!(menu.candidates(), &strings(&["alpha", "beta", "alphabet"]));
    assert!(menu.has_ended());
}

#[test]
fn cancel_ends_the_session_and_changes_nothing_else() {
    let mut menu = menu_over(&["alpha", "beta", "alphabet"]);
    type_text(&mut menu, "al");
    assert_eq!(menu.update(Event::NavigateRight), None);
    assert!(!menu.has_ended());
    assert_eq!(menu.update(Event::Cancel), Some(TerminalAction::Cancelled));
    assert_eq!(menu.search(), "al");
    assert_eq!(menu.cursor(), 1);
    assert!(menu.has_ended());
}

#[test]
fn an_ended_session_takes_no_further_event() {
    let mut menu = menu_over(&["alpha", "beta", "alphabet"]);
    type_text(&mut menu, "al");
    assert_eq!(
        menu.update(Event::Confirm),
        Some(TerminalAction::Confirmed { text: "alpha".to_string(), selected: true })
    );
    assert!(menu.has_ended());
    for event in [
        Event::Char('x'),
        Event::Backspace,
        Event::ClearLine,
        Event::NavigateLeft,
        Event::NavigateRight,
        Event::Confirm,
        Event::Cancel,
    ] {
        assert_eq!(menu.update(event), None);
        assert_eq!(menu.search(), "al");
        assert_eq!(menu.cursor(), 0);
        assert!(menu.has_ended());
    }
    assert_eq!(handle_key(&mut menu, Key::Enter, false), None);
    assert_eq!(handle_key(&mut menu, Key::Escape, false), None);
}

#[test]
fn cancel_is_no_error_in_either_mode() {
    assert_eq!(exit_effect(TerminalAction::Cancelled, true), ExitEffect::Terminate);
    assert_eq!(exit_effect(TerminalAction::Cancelled, false), ExitEffect::Terminate);
}

#[test]
fn typing_appends_and_resets_the_cursor() {
    let mut menu = menu_over(&["ab", "abc", "abd"]);
    type_text(&mut menu, "a");
    assert_eq!(menu.update(Event::NavigateRight), None);
    assert_eq!(menu.update(Event::NavigateRight), None);
    assert_eq!(menu.cursor(), 2);
    assert_eq!(menu.update(Event::Char('b')), None);
    assert_eq!(menu.search(), "ab");
    assert_eq!(menu.cursor(), 0);
}

#[test]
fn backspace_removes_the_last_character_and_keeps_the_cursor() {
    let mut menu = menu_over(&["ab", "abc", "abd"]);
    type_text(&mut menu, "abé");
    assert_eq!(menu.update(Event::Backspace), None);
    assert_eq!(menu.search(), "ab");
    assert_eq!(menu.update(Event::NavigateRight), None);
    assert_eq!(menu.cursor(), 1);
    assert_eq!(menu.update(Event::Backspace), None);
    assert_eq!(menu.search(), "a");
    assert_eq!(menu.cursor(), 1);
}

#[test]
fn backspace_on_an_empty_query_changes_nothing() {
    let mut menu = menu_over(&["ab", "abc"]);
    assert_eq!(menu.update(Event::NavigateRight), None);
    assert_eq!(menu.update(Event::Backspace), None);
    assert_eq!(menu.search(), "");
    assert_eq!(menu.cursor(), 1);
}

#[test]
fn clear_line_empties_the_query() {
    let mut menu = menu_over(&["ab", "abc", "xyz"]);
    type_text(&mut menu, "ab");
    assert_eq!(menu.update(Event::NavigateRight), None);
    assert_eq!(menu.update(Event::ClearLine), None);
    assert_eq!(menu.search(), "");
    assert_eq!(menu.cursor(), 1);
    assert_eq!(shown(&menu), strings(&["ab", "abc", "xyz"]));
}

#[test]
fn navigation_wraps_around_at_both_ends() {
    let mut menu = menu_over(&["one", "two", "three"]);
    assert_eq!(menu.update(Event::NavigateLeft), None);
    assert_eq!(menu.cursor(), 2);
    assert_eq!(menu.update(Event::NavigateRight), None);
    assert_eq!(menu.cursor(), 0);
    assert_eq!(menu.update(Event::NavigateRight), None);
    assert_eq!(menu.cursor(), 1);
    assert_eq!(menu.update(Event::NavigateRight), None);
    assert_eq!(menu.cursor(), 2);
    assert_eq!(menu.update(Event::NavigateLeft), None);
    assert_eq!(menu.cursor(), 1);
}

#[test]
fn navigation_with_a_single_match_stays_put() {
    let mut menu = menu_over(&["one", "two"]);
    type_text(&mut menu, "tw");
    assert_eq!(menu.update(Event::NavigateRight), None);
    assert_eq!(menu.cursor(), 0);
    assert_eq!(menu.update(Event::NavigateLeft), None);
    assert_eq!(menu.cursor(), 0);
}

#[test]
fn navigation_without_matches_keeps_the_cursor_at_zero() {
    let mut menu = menu_over(&["one", "two"]);
    type_text(&mut menu, "zzz");
    assert_eq!(menu.update(Event::NavigateRight), None);
    assert_eq!(menu.cursor(), 0);
    assert_eq!(menu.update(Event::NavigateLeft), None);
    assert_eq!(menu.cursor(), 0);
    let mut empty = menu_over(&[]);
    assert_eq!(empty.update(Event::NavigateLeft), None);
    assert_eq!(empty.cursor(), 0);
}

#[test]
fn navigation_covers_more_matches_than_a_screen_shows() {
    let names: Vec<String> = (0..25).map(|i| format!("item{:02}", i)).collect();
    let mut menu = MenuState::new(options(false, false), names);
    for expected in 1..25 {
        assert_eq!(menu.update(Event::NavigateRight), None);
        assert_eq!(menu.cursor(), expected);
    }
    assert_eq!(menu.update(Event::NavigateRight), None);
    assert_eq!(menu.cursor(), 0);
    assert_eq!(menu.update(Event::NavigateLeft), None);
    assert_eq!(menu.cursor(), 24);
    assert_eq!(
        menu.update(Event::Confirm),
        Some(TerminalAction::Confirmed { text: "item24".to_string(), selected: true })
    );
}

#[test]
fn the_cursor_stays_in_range_whatever_happens() {
    let mut menu = MenuState::new(
        options(false, true),
        strings(&["Alpha", "alphabet", "beta", "BETAMAX", "gamma", "delta", "alp"]),
    );
    let events = [
        Event::NavigateLeft,
        Event::Char('a'),
        Event::NavigateLeft,
        Event::Char('L'),
        Event::NavigateRight,
        Event::NavigateRight,
        Event::Char('p'),
        Event::NavigateLeft,
        Event::Char('h'),
        Event::NavigateRight,
        Event::Char('x'),
        Event::NavigateRight,
        Event::NavigateLeft,
        Event::Backspace,
        Event::NavigateLeft,
        Event::Backspace,
        Event::Backspace,
        Event::NavigateLeft,
        Event::ClearLine,
        Event::NavigateLeft,
        Event::Backspace,
        Event::Char('B'),
        Event::NavigateLeft,
        Event::ClearLine,
    ];
    assert!(cursor_is_in_range(&menu));
    for event in events {
        assert_eq!(menu.update(event), None);
        assert!(cursor_is_in_range(&menu));
    }
    assert_eq!(menu.search(), "");
    assert_eq!(menu.cursor(), 2);
}

#[test]
fn confirm_takes_the_match_under_the_cursor() {
    let mut menu = MenuState::new(options(false, true), strings(&["Alpha", "beta", "ALPHABET"]));
    type_text(&mut menu, "alpha");
    assert_eq!(menu.update(Event::NavigateRight), None);
    assert_eq!(
        menu.update(Event::Confirm),
        Some(TerminalAction::Confirmed { text: "ALPHABET".to_string(), selected: true })
    );
    assert_eq!(menu.search(), "alpha");
    assert_eq!(menu.cursor(), 1);
    assert!(menu.has_ended());
}

#[test]
fn confirm_on_nothing_at_all_gives_the_empty_query() {
    let mut menu = menu_over(&[]);
    let action = menu.update(Event::Confirm);
    assert_eq!(
        action,
        Some(TerminalAction::Confirmed { text: String::new(), selected: false })
    );
    assert_eq!(
        exit_effect(action.unwrap(), false),
        ExitEffect::Spawn { command: String::new(), args: Vec::new() }
    );
}

#[test]
fn a_selected_candidate_is_started_as_it_stands() {
    let action = TerminalAction::Confirmed { text: "my program".to_string(), selected: true };
    assert_eq!(
        exit_effect(action, false),
        ExitEffect::Spawn { command: "my program".to_string(), args: Vec::new() }
    );
}

#[test]
fn a_typed_command_line_is_cut_into_its_words() {
    let action = TerminalAction::Confirmed { text: "ls -l /tmp".to_string(), selected: false };
    assert_eq!(
        exit_effect(action, false),
        ExitEffect::Spawn { command: "ls".to_string(), args: strings(&["-l", "/tmp"]) }
    );
    let action = TerminalAction::Confirmed { text: " ls  -l\t/tmp ".to_string(), selected: false };
    assert_eq!(
        exit_effect(action, false),
        ExitEffect::Spawn { command: "ls".to_string(), args: strings(&["-l", "/tmp"]) }
    );
}

#[test]
fn a_typed_command_line_without_a_word_is_the_empty_command() {
    for text in ["", " ", "  \t "] {
        let action = TerminalAction::Confirmed { text: text.to_string(), selected: false };
        assert_eq!(
            exit_effect(action, false),
            ExitEffect::Spawn { command: String::new(), args: Vec::new() }
        );
    }
}

#[test]
fn a_choice_among_piped_candidates_is_printed_as_it_stands() {
    let action = TerminalAction::Confirmed { text: "two words".to_string(), selected: true };
    assert_eq!(exit_effect(action, true), ExitEffect::Print("two words".to_string()));
    let action = TerminalAction::Confirmed { text: "typed text".to_string(), selected: false };
    assert_eq!(exit_effect(action, true), ExitEffect::Print("typed text".to_string()));
}

#[test]
fn keys_stand_for_events() {
    assert_eq!(decode(Key::Char('x'), false), Some(Event::Char('x')));
    assert_eq!(decode(Key::Char('u'), false), Some(Event::Char('u')));
    assert_eq!(decode(Key::Char('C'), false), Some(Event::Char('C')));
    assert_eq!(decode(Key::Backspace, false), Some(Event::Backspace));
    assert_eq!(decode(Key::Escape, false), Some(Event::Cancel));
    assert_eq!(decode(Key::Enter, false), Some(Event::Confirm));
    assert_eq!(decode(Key::Left, false), Some(Event::NavigateLeft));
    assert_eq!(decode(Key::Right, false), Some(Event::NavigateRight));
}

#[test]
fn control_chords_clear_and_quit() {
    assert_eq!(decode(Key::Char('u'), true), Some(Event::ClearLine));
    assert_eq!(decode(Key::Char('U'), true), Some(Event::ClearLine));
    assert_eq!(decode(Key::Char('c'), true), Some(Event::Cancel));
    assert_eq!(decode(Key::Char('C'), true), Some(Event::Cancel));
    assert_eq!(decode(Key::Char('x'), true), None);
    assert_eq!(decode(Key::Escape, true), None);
    assert_eq!(decode(Key::Enter, true), None);
    assert_eq!(decode(Key::Backspace, true), None);
    assert_eq!(decode(Key::Left, true), None);
    assert_eq!(decode(Key::Right, true), None);
}

#[test]
fn key_presses_drive_a_whole_session() {
    let mut menu = menu_over(&["firefox", "files", "gimp"]);
    assert_eq!(handle_key(&mut menu, Key::Char('x'), false), None);
    assert_eq!(handle_key(&mut menu, Key::Char('u'), true), None);
    assert_eq!(menu.search(), "");
    assert_eq!(handle_key(&mut menu, Key::Char('q'), true), None);
    assert_eq!(menu.search(), "");
    assert_eq!(handle_key(&mut menu, Key::Char('f'), false), None);
    assert_eq!(handle_key(&mut menu, Key::Char('i'), false), None);
    assert_eq!(handle_key(&mut menu, Key::Char('z'), false), None);
    assert_eq!(handle_key(&mut menu, Key::Backspace, false), None);
    assert_eq!(menu.search(), "fi");
    assert_eq!(handle_key(&mut menu, Key::Left, false), None);
    assert_eq!(menu.cursor(), 1);
    assert_eq!(
        handle_key(&mut menu, Key::Enter, false),
        Some(ExitEffect::Spawn { command: "files".to_string(), args: Vec::new() })
    );
}

#[test]
fn control_c_quits() {
    let mut menu = menu_over(&["firefox"]);
    assert_eq!(handle_key(&mut menu, Key::Char('f'), false), None);
    assert_eq!(handle_key(&mut menu, Key::Char('c'), true), Some(ExitEffect::Terminate));
    assert_eq!(menu.search(), "f");
}

#[test]
fn options_are_kept_as_they_were_found() {
    let args = Args::new(true, false, true, Some("run:".to_string()));
    assert_eq!(
        args,
        Args {
            receiving_stdin: true,
            bottom_screen: false,
            case_insensitive: true,
            prompt: Some("run:".to_string()),
        }
    );
    let args = Args::new(false, true, false, None);
    assert_eq!(
        args,
        Args { receiving_stdin: false, bottom_screen: true, case_insensitive: false, prompt: None }
    );
}

#[test]
fn default_options_are_all_off() {
    let args = Args::default();
    assert_eq!(
        args,
        Args { receiving_stdin: false, bottom_screen: false, case_insensitive: false, prompt: None }
    );
}

#[test]
fn backspace_pulls_the_cursor_back_where_the_matches_get_fewer() {
    // A capital sigma is lowered to its final form at the end of a word only,
    // so the lowercase form of a shorter query need not occur wherever that
    // of the longer one did.
    let candidates = strings(&["ΑΣ ΑΣΑ", "ΑΣ ΑΣΑ!", "ΑΣΑ"]);
    let mut menu = MenuState::new(options(false, true), candidates.clone());
    type_text(&mut menu, "ΑΣΑ");
    assert_eq!(shown(&menu), candidates);
    assert_eq!(menu.update(Event::NavigateLeft), None);
    assert_eq!(menu.cursor(), 2);
    assert_eq!(menu.update(Event::Backspace), None);
    assert_eq!(menu.search(), "ΑΣ");
    assert_eq!(shown(&menu), strings(&["ΑΣ ΑΣΑ", "ΑΣ ΑΣΑ!"]));
    assert_eq!(menu.cursor(), 1);
}

#[test]
fn backspace_pulls_the_cursor_to_zero_where_no_match_is_left() {
    let candidates = strings(&["ασα1", "ασα2"]);
    let mut menu = MenuState::new(options(false, true), candidates.clone());
    type_text(&mut menu, "ΑΣΑ");
    assert_eq!(shown(&menu), candidates);
    assert_eq!(menu.update(Event::NavigateRight), None);
    assert_eq!(menu.cursor(), 1);
    assert_eq!(menu.update(Event::Backspace), None);
    assert!(shown(&menu).is_empty());
    assert_eq!(menu.cursor(), 0);
}
