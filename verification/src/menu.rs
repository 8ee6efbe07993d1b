//! The selection state machine: the text typed so far and a cursor on the
//! candidates that match it.

use vstd::prelude::*;
use vstd::arithmetic::div_mod::{lemma_mod_bound, lemma_mod_self_0, lemma_small_mod};
use crate::args::Args;
use crate::event::Event;
use crate::filter::{filter, filtered, lemma_shorter_query_matches_more};
use crate::text::{pop_char, push_char};

verus! {

/// How a session ends.
#[derive(Debug, Clone, PartialEq, Eq)]
pub enum TerminalAction {
    /// The user chose `text`. `selected` tells whether it is the candidate
    /// under the cursor or, where the cursor stood on none, the query as typed.
    Confirmed { text: String, selected: bool },
    /// The user gave up.
    Cancelled,
}

/// A terminal action, with its text as a sequence of characters.
pub enum Outcome {
    Confirmed { text: Seq<char>, selected: bool },
    Cancelled,
}

impl View for TerminalAction {
    type V = Outcome;

    open spec fn view(&self) -> Outcome {
        match self {
            TerminalAction::Confirmed { text, selected } => Outcome::Confirmed {
                text: text@,
                selected: *selected,
            },
            TerminalAction::Cancelled => Outcome::Cancelled,
        }
    }
}

/// The query and the cursor, as mathematical values.
#[verifier::ext_equal]
pub struct Selection {
    pub query: Seq<char>,
    pub cursor: nat,
}

/// The cursor addresses one of `count` matches, or stands at 0 where there is
/// none.
pub open spec fn cursor_in_range(cursor: nat, count: nat) -> bool {
    cursor < if count == 0 { 1 } else { count }
}

/// The position nearest to `cursor` that is in range for `count` matches.
pub open spec fn clamp(cursor: nat, count: nat) -> nat {
    if count == 0 {
        0
    } else if cursor >= count {
        (count - 1) as nat
    } else {
        cursor
    }
}

/// The selection with which a session starts: nothing typed, the cursor on
/// the first match.
pub open spec fn initial() -> Selection {
    Selection { query: Seq::empty(), cursor: 0 }
}

/// The number of candidates that match the query of `selection`.
pub open spec fn match_count(
    selection: Selection,
    candidates: Seq<Seq<char>>,
    case_insensitive: bool,
) -> nat {
    filtered(candidates, selection.query, case_insensitive).len()
}

/// The selection after one event.
pub open spec fn step(
    selection: Selection,
    event: Event,
    candidates: Seq<Seq<char>>,
    case_insensitive: bool,
) -> Selection {
    match event {
        Event::Char(c) => Selection { query: selection.query.push(c), cursor: 0 },
        Event::Backspace => {
            let query = if selection.query.len() > 0 {
                selection.query.drop_last()
            } else {
                selection.query
            };
            Selection {
                query,
                cursor: clamp(
                    selection.cursor,
                    filtered(candidates, query, case_insensitive).len(),
                ),
            }
        },
        Event::ClearLine => Selection {
            query: Seq::empty(),
            cursor: clamp(
                selection.cursor,
                filtered(candidates, Seq::empty(), case_insensitive).len(),
            ),
        },
        Event::NavigateRight => {
            let count = match_count(selection, candidates, case_insensitive);
            if count > 0 {
                Selection {
                    query: selection.query,
                    cursor: ((selection.cursor as int + 1) % (count as int)) as nat,
                }
            } else {
                selection
            }
        },
        Event::NavigateLeft => {
            let count = match_count(selection, candidates, case_insensitive);
            if count > 0 {
                Selection {
                    query: selection.query,
                    cursor: ((selection.cursor as int - 1 + count as int) % (count as int)) as nat,
                }
            } else {
                selection
            }
        },
        Event::Cancel | Event::Confirm => selection,
    }
}

/// The terminal action that an event brings about, if it ends the session.
pub open spec fn outcome(
    selection: Selection,
    event: Event,
    candidates: Seq<Seq<char>>,
    case_insensitive: bool,
) -> Option<Outcome> {
    match event {
        Event::Cancel => Some(Outcome::Cancelled),
        Event::Confirm => {
            let matches = filtered(candidates, selection.query, case_insensitive);
            if selection.cursor < matches.len() {
                Some(Outcome::Confirmed { text: matches[selection.cursor as int], selected: true })
            } else {
                Some(Outcome::Confirmed { text: selection.query, selected: false })
            }
        },
        _ => None,
    }
}

/// The selection after a run of events, taken in order.
pub open spec fn after(
    selection: Selection,
    events: Seq<Event>,
    candidates: Seq<Seq<char>>,
    case_insensitive: bool,
) -> Selection
    decreases events.len(),
{
    if events.len() == 0 {
        selection
    } else {
        step(
            after(selection, events.drop_last(), candidates, case_insensitive),
            events.last(),
            candidates,
            case_insensitive,
        )
    }
}

/// No event takes the cursor out of range: where it addresses a match of the
/// query, or stands at 0 for want of one, it does so after the event too.
pub proof fn lemma_step_keeps_cursor_in_range(
    selection: Selection,
    event: Event,
    candidates: Seq<Seq<char>>,
    case_insensitive: bool,
)
    requires
        cursor_in_range(selection.cursor, match_count(selection, candidates, case_insensitive)),
    ensures
        cursor_in_range(
            step(selection, event, candidates, case_insensitive).cursor,
            match_count(
                step(selection, event, candidates, case_insensitive),
                candidates,
                case_insensitive,
            ),
        ),
{
    let count = match_count(selection, candidates, case_insensitive) as int;
    if count > 0 {
        lemma_mod_bound(selection.cursor as int + 1, count);
        lemma_mod_bound(selection.cursor as int - 1 + count, count);
    }
}

/// The cursor invariant: after any run of events from the start of a
/// session, the cursor addresses a match of the query, or stands at 0 where
/// the query has none.
pub proof fn lemma_cursor_stays_in_range(
    events: Seq<Event>,
    candidates: Seq<Seq<char>>,
    case_insensitive: bool,
)
    ensures
        cursor_in_range(
            after(initial(), events, candidates, case_insensitive).cursor,
            match_count(
                after(initial(), events, candidates, case_insensitive),
                candidates,
                case_insensitive,
            ),
        ),
    decreases events.len(),
{
    if events.len() > 0 {
        lemma_cursor_stays_in_range(events.drop_last(), candidates, case_insensitive);
        lemma_step_keeps_cursor_in_range(
            after(initial(), events.drop_last(), candidates, case_insensitive),
            events.last(),
            candidates,
            case_insensitive,
        );
    }
}

/// Where letter case matters, removing the last character of the query
/// leaves the cursor where it is: the matches get no fewer, so a cursor that
/// was in range stays in range.
pub proof fn lemma_backspace_keeps_cursor(selection: Selection, candidates: Seq<Seq<char>>)
    requires
        cursor_in_range(selection.cursor, match_count(selection, candidates, false)),
    ensures
        step(selection, Event::Backspace, candidates, false).cursor == selection.cursor,
{
    if selection.query.len() > 0 {
        lemma_shorter_query_matches_more(candidates, selection.query);
    }
}

/// The cursor wraps around: one step to the right from the last match leads
/// to the first, and one step to the left from the first leads to the last.
pub proof fn lemma_cursor_wraps_around(
    selection: Selection,
    candidates: Seq<Seq<char>>,
    case_insensitive: bool,
)
    requires
        match_count(selection, candidates, case_insensitive) > 0,
    ensures
        selection.cursor == match_count(selection, candidates, case_insensitive) - 1 ==> step(
            selection,
            Event::NavigateRight,
            candidates,
            case_insensitive,
        ).cursor == 0,
        selection.cursor == 0 ==> step(
            selection,
            Event::NavigateLeft,
            candidates,
            case_insensitive,
        ).cursor == match_count(selection, candidates, case_insensitive) - 1,
{
    let count = match_count(selection, candidates, case_insensitive);
    lemma_mod_self_0(count as int);
    lemma_small_mod((count - 1) as nat, count);
}

/// A session, as mathematical values.
#[verifier::ext_equal]
pub struct Menu {
    pub args: Args,
    pub candidates: Seq<Seq<char>>,
    pub selection: Selection,
    /// A terminal action has been given out.
    pub ended: bool,
}

impl Menu {
    /// The candidates that match the query.
    pub open spec fn matches(self) -> Seq<Seq<char>> {
        filtered(self.candidates, self.selection.query, self.args.case_insensitive)
    }

    /// The terminal action that an event brings about. A session gives out
    /// one terminal action at most: once it has ended, no event brings about
    /// another.
    pub open spec fn emits(self, event: Event) -> Option<Outcome> {
        if self.ended {
            None
        } else {
            outcome(self.selection, event, self.candidates, self.args.case_insensitive)
        }
    }

    /// The session after an event. An event that brings about a terminal
    /// action ends the session and changes nothing else; a session that has
    /// ended takes no further event.
    pub open spec fn next(self, event: Event) -> Menu {
        if self.ended {
            self
        } else {
            Menu {
                args: self.args,
                candidates: self.candidates,
                selection: step(
                    self.selection,
                    event,
                    self.candidates,
                    self.args.case_insensitive,
                ),
                ended: self.emits(event) is Some,
            }
        }
    }
}

/// The state of one session: its options, its candidates, the query typed so
/// far and the cursor. The cursor is always in range for the matches of the
/// query.
pub struct MenuState {
    args: Args,
    search: String,
    candidates: Vec<String>,
    cursor: usize,
    ended: bool,
}

impl View for MenuState {
    type V = Menu;

    closed spec fn view(&self) -> Menu {
        Menu {
            args: self.args,
            candidates: self.candidates.deep_view(),
            selection: Selection { query: self.search@, cursor: self.cursor as nat },
            ended: self.ended,
        }
    }
}

impl MenuState {
    #[verifier::type_invariant]
    spec fn cursor_fits(self) -> bool {
        cursor_in_range(
            self.cursor as nat,
            filtered(self.candidates.deep_view(), self.search@, self.args.case_insensitive).len(),
        )
    }

    /// A session over `candidates` with nothing typed yet.
    pub fn new(args: Args, candidates: Vec<String>) -> (menu: MenuState)
        ensures
            menu@.args == args,
            menu@.candidates == candidates.deep_view(),
            menu@.selection == initial(),
            !menu@.ended,
    {
        MenuState { args, search: String::new(), candidates, cursor: 0, ended: false }
    }

    /// The options of the session.
    pub fn args(&self) -> (args: &Args)
        ensures
            *args == self@.args,
    {
        &self.args
    }

    /// The candidates of the session.
    pub fn candidates(&self) -> (candidates: &Vec<String>)
        ensures
            candidates.deep_view() == self@.candidates,
    {
        &self.candidates
    }

    /// The query typed so far.
    pub fn search(&self) -> (search: &String)
        ensures
            search@ == self@.selection.query,
    {
        &self.search
    }

    /// The position of the cursor among the matches of the query.
    pub fn cursor(&self) -> (cursor: usize)
        ensures
            cursor == self@.selection.cursor,
            cursor_in_range(cursor as nat, self@.matches().len()),
    {
        proof {
            use_type_invariant(self);
        }
        self.cursor
    }

    /// Whether the session has given out its terminal action.
    pub fn has_ended(&self) -> (ended: bool)
        ensures
            ended == self@.ended,
    {
        self.ended
    }

    /// The candidates that match `search`, in the order in which they were
    /// given.
    pub fn get_filtered_matches(&self, search: &str) -> (found: Vec<&String>)
        ensures
            found.deep_view() == filtered(self@.candidates, search@, self@.args.case_insensitive),
            search@.len() == 0 ==> found.deep_view() == self@.candidates,
    {
        filter(&self.candidates, search, self.args.case_insensitive)
    }

    /// Consumes one event. The session changes as `Menu::next` says, and the
    /// result is the terminal action where the event ends the session.
    pub fn update(&mut self, event: Event) -> (action: Option<TerminalAction>)
        ensures
            final(self)@ == old(self)@.next(event),
            match action {
                Some(action) => old(self)@.emits(event) == Some(action@),
                None => old(self)@.emits(event) is None,
            },
            cursor_in_range(final(self)@.selection.cursor, final(self)@.matches().len()),
    {
        proof {
            use_type_invariant(&*self);
        }
        if self.ended {
            return None;
        }
        match event {
            Event::Char(c) => {
                let mut search = self.search.clone();
                push_char(&mut search, c);
                self.cursor = 0;
                self.search = search;
                None
            },
            Event::Backspace => {
                let cursor = self.cursor;
                let mut search = self.search.clone();
                let _ = pop_char(&mut search);
                self.cursor = 0;
                self.search = search;
                let count = self.get_filtered_matches(self.search.as_str()).len();
                self.cursor = clamped(cursor, count);
                None
            },
            Event::ClearLine => {
                let cursor = self.cursor;
                self.cursor = 0;
                self.search = String::new();
                let count = self.get_filtered_matches(self.search.as_str()).len();
                self.cursor = clamped(cursor, count);
                None
            },
            Event::NavigateRight => {
                let count = self.get_filtered_matches(self.search.as_str()).len();
                if count > 0 {
                    proof {
                        if self.cursor + 1 == count {
                            lemma_mod_self_0(count as int);
                        } else {
                            lemma_small_mod((self.cursor + 1) as nat, count as nat);
                        }
                    }
                    self.cursor = if self.cursor + 1 == count {
                        0
                    } else {
                        self.cursor + 1
                    };
                }
                None
            },
            Event::NavigateLeft => {
                let count = self.get_filtered_matches(self.search.as_str()).len();
                if count > 0 {
                    proof {
                        if self.cursor == 0 {
                            lemma_small_mod((count - 1) as nat, count as nat);
                        } else {
                            lemma_wrap_back(self.cursor as int, count as int);
                        }
                    }
                    self.cursor = if self.cursor == 0 {
                        count - 1
                    } else {
                        self.cursor - 1
                    };
                }
                None
            },
            Event::Cancel => {
                self.ended = true;
                Some(TerminalAction::Cancelled)
            },
            Event::Confirm => {
                let matches = self.get_filtered_matches(self.search.as_str());
                let action = if self.cursor < matches.len() {
                    TerminalAction::Confirmed { text: matches[self.cursor].clone(), selected: true }
                } else {
                    TerminalAction::Confirmed { text: self.search.clone(), selected: false }
                };
                self.ended = true;
                Some(action)
            },
        }
    }
}

/// Stepping back from a position that is not the first stays within the
/// range and needs no wrap.
proof fn lemma_wrap_back(cursor: int, count: int)
    requires
        0 < cursor < count,
    ensures
        (cursor - 1 + count) % count == cursor - 1,
{
    vstd::arithmetic::div_mod::lemma_mod_add_multiples_vanish(cursor - 1, count);
    lemma_small_mod((cursor - 1) as nat, count as nat);
}

/// The position nearest to `cursor` that is in range for `count` matches.
fn clamped(cursor: usize, count: usize) -> (fitted: usize)
    ensures
        fitted == clamp(cursor as nat, count as nat),
{
    if count == 0 {
        0
    } else if cursor >= count {
        count - 1
    } else {
        cursor
    }
}

} // verus!
