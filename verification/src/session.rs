//! What a session does on its way out, and the handling of one key press from
//! the key to that effect.

use vstd::prelude::*;
use crate::event::{decode, decoded, Event, Key};
use crate::menu::{Menu, MenuState, Outcome, TerminalAction};
use crate::split::{words, words_of};

verus! {

/// What the process has to do once the session has ended.
#[derive(Debug, Clone, PartialEq, Eq)]
pub enum ExitEffect {
    /// Leave without any output, with success.
    Terminate,
    /// Write the text and a line feed to the standard output, then leave.
    Print(String),
    /// Start `command` with `args` as a process of its own, then leave
    /// without waiting for it.
    Spawn { command: String, args: Vec<String> },
}

/// An exit effect, with its texts as sequences of characters.
pub enum Effect {
    Terminate,
    Print(Seq<char>),
    Spawn { command: Seq<char>, args: Seq<Seq<char>> },
}

impl View for ExitEffect {
    type V = Effect;

    open spec fn view(&self) -> Effect {
        match self {
            ExitEffect::Terminate => Effect::Terminate,
            ExitEffect::Print(text) => Effect::Print(text@),
            ExitEffect::Spawn { command, args } => Effect::Spawn {
                command: command@,
                args: args.deep_view(),
            },
        }
    }
}

/// The command line that a freely typed query stands for: its first word is
/// the command, the words after it are the arguments. A query without a word
/// stands for the empty command.
pub open spec fn command_line(text: Seq<char>) -> Effect {
    let tokens = words_of(text);
    if tokens.len() == 0 {
        Effect::Spawn { command: Seq::empty(), args: Seq::empty() }
    } else {
        Effect::Spawn { command: tokens[0], args: tokens.drop_first() }
    }
}

/// The effect that a terminal action calls for. Giving up leaves without
/// output. A choice made among piped-in candidates is printed. Otherwise the
/// choice is started as a command: a selected candidate as it stands, as one
/// command without arguments; a query that was typed freely as the command
/// line that its words make.
pub open spec fn effect_of(outcome: Outcome, receiving_stdin: bool) -> Effect {
    match outcome {
        Outcome::Cancelled => Effect::Terminate,
        Outcome::Confirmed { text, selected } => if receiving_stdin {
            Effect::Print(text)
        } else if selected {
            Effect::Spawn { command: text, args: Seq::empty() }
        } else {
            command_line(text)
        },
    }
}

/// Turns the terminal action of a session into what the process has to do.
pub fn exit_effect(action: TerminalAction, receiving_stdin: bool) -> (effect: ExitEffect)
    ensures
        effect@ == effect_of(action@, receiving_stdin),
{
    match action {
        TerminalAction::Cancelled => ExitEffect::Terminate,
        TerminalAction::Confirmed { text, selected } => {
            if receiving_stdin {
                ExitEffect::Print(text)
            } else if selected {
                let args: Vec<String> = Vec::new();
                assert(args.deep_view() =~= Seq::<Seq<char>>::empty());
                ExitEffect::Spawn { command: text, args }
            } else {
                let mut tokens = words(text.as_str());
                let ghost all = tokens.deep_view();
                if tokens.len() == 0 {
                    assert(tokens.deep_view() =~= Seq::<Seq<char>>::empty());
                    ExitEffect::Spawn { command: String::new(), args: tokens }
                } else {
                    let command = tokens.remove(0);
                    assert(tokens.deep_view() =~= all.drop_first());
                    ExitEffect::Spawn { command, args: tokens }
                }
            }
        },
    }
}

/// Escape cancels at any point of a session, whatever has been typed: the
/// terminal action is the cancellation, the process leaves without output,
/// and nothing changes in the session but that it has ended.
pub proof fn lemma_escape_cancels(menu: Menu)
    requires
        !menu.ended,
    ensures
        decoded(Key::Escape, false) == Some(Event::Cancel),
        menu.emits(Event::Cancel) == Some(Outcome::Cancelled),
        effect_of(Outcome::Cancelled, menu.args.receiving_stdin) == Effect::Terminate,
        menu.next(Event::Cancel) == (Menu {
            args: menu.args,
            candidates: menu.candidates,
            selection: menu.selection,
            ended: true,
        }),
{
}

/// Handles one key press from the key to the exit effect. A key press that
/// stands for no event changes nothing. Otherwise the session consumes the
/// event, and where that ends the session the result is the effect that the
/// terminal action calls for.
pub fn handle_key(menu: &mut MenuState, key: Key, ctrl: bool) -> (effect: Option<ExitEffect>)
    ensures
        match decoded(key, ctrl) {
            None => final(menu)@ == old(menu)@ && effect is None,
            Some(event) => {
                &&& final(menu)@ == old(menu)@.next(event)
                &&& match old(menu)@.emits(event) {
                    None => effect is None,
                    Some(ended) => effect is Some && effect->0@ == effect_of(
                        ended,
                        old(menu)@.args.receiving_stdin,
                    ),
                }
            },
        },
{
    match decode(key, ctrl) {
        None => None,
        Some(event) => {
            let receiving_stdin = menu.args().receiving_stdin;
            match menu.update(event) {
                None => None,
                Some(action) => Some(exit_effect(action, receiving_stdin)),
            }
        },
    }
}

} // verus!
