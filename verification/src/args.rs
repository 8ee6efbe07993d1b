//! The options that a session runs with.

use vstd::prelude::*;

verus! {

/// The options of one session. They are set before the session starts and
/// only read afterwards.
#[derive(Debug, Clone, PartialEq)]
pub struct Args {
    /// The candidates are the lines of the text that was piped in.
    pub receiving_stdin: bool,
    /// The menu is placed at the bottom of the screen.
    pub bottom_screen: bool,
    /// Letter case is ignored when candidates are matched.
    pub case_insensitive: bool,
    /// The text shown to the left of the input field.
    pub prompt: Option<String>,
}

impl Args {
    /// The options of a session, each as it was found.
    pub fn new(
        receiving_stdin: bool,
        bottom_screen: bool,
        case_insensitive: bool,
        prompt: Option<String>,
    ) -> (args: Args)
        ensures
            args.receiving_stdin == receiving_stdin,
            args.bottom_screen == bottom_screen,
            args.case_insensitive == case_insensitive,
            args.prompt == prompt,
    {
        Args { receiving_stdin, bottom_screen, case_insensitive, prompt }
    }
}

impl Default for Args {
    fn default() -> (args: Args)
        ensures
            !args.receiving_stdin,
            !args.bottom_screen,
            !args.case_insensitive,
            args.prompt is None,
    {
        Args { receiving_stdin: false, bottom_screen: false, case_insensitive: false, prompt: None }
    }
}

} // verus!
