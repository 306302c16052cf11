//! The interactive breakpoint: a pause that an operator ends from the chat
//! channel with `s`/`step` or `c`/`continue`.
//!
//! The controller first sends its prompt; the caller then drains stale chat
//! and hands every received message to the controller until it has decided.
//! There is no overall deadline: the operator may take as long as needed.

use vstd::prelude::*;
use crate::text::{chars_of, contains, contains_exec, ends_with, ends_with_exec, lower_of, lowercase, same_chars, trim, trimmed};

verus! {

/// The command that announces a breakpoint on the chat channel.
pub const PROMPT_COMMAND: &'static str = "say Waiting for step/continue (s = step, c = continue)";

/// The phrase by which the controller recognizes its own prompt.
pub const PROMPT_MARKER: &'static str = "Waiting for step/continue";

/// What the operator asked for.
#[derive(Clone, Copy, Debug, PartialEq, Eq, Structural)]
pub enum BreakpointCommand {
    /// Run one tick and stop again.
    Step,
    /// Run on to the end.
    Continue,
}

/// Where a breakpoint stands.
#[derive(Clone, Copy, Debug, PartialEq, Eq, Structural)]
pub enum BreakpointState {
    /// The prompt has not been sent.
    Prompting,
    /// The prompt was sent; waiting for the operator.
    Waiting,
    /// The operator asked for a single step.
    Stepped,
    /// The operator asked to continue.
    Continued,
}

/// `t` is the token `word`, alone or as the last word.
pub open spec fn is_token(t: Seq<char>, word: Seq<char>) -> bool {
    t == word || ends_with(t, seq![' '] + word)
}

/// The command that a case-folded, trimmed message names, if any.
pub open spec fn command_of(t: Seq<char>) -> Option<BreakpointCommand> {
    if is_token(t, "s"@) || is_token(t, "step"@) {
        Some(BreakpointCommand::Step)
    } else if is_token(t, "c"@) || is_token(t, "continue"@) {
        Some(BreakpointCommand::Continue)
    } else {
        None
    }
}

/// The command that a raw chat message names: none for the controller's own
/// prompt; otherwise what the message says once case-folded and trimmed.
pub open spec fn message_command(m: Seq<char>) -> Option<BreakpointCommand> {
    if contains(m, PROMPT_MARKER@) {
        None
    } else {
        command_of(trimmed(lower_of(m)))
    }
}

fn is_token_exec(t: &Vec<char>, word: &str) -> (r: bool)
    ensures
        r == is_token(t@, word@),
{
    let w = chars_of(word);
    let mut spaced: Vec<char> = vec![' '];
    let mut i: usize = 0;
    while i < w.len()
        invariant
            i <= w@.len(),
            spaced@ == seq![' '] + w@.subrange(0, i as int),
        decreases w.len() - i,
    {
        spaced.push(w[i]);
        i = i + 1;
        assert(spaced@ =~= seq![' '] + w@.subrange(0, i as int));
    }
    assert(w@.subrange(0, i as int) =~= w@);
    same_chars(t, &w) || ends_with_exec(t, &spaced)
}

/// The command named by a message that is already case-folded and trimmed.
pub fn command_of_folded(t: &str) -> (r: Option<BreakpointCommand>)
    ensures
        r == command_of(t@),
{
    let cs = chars_of(t);
    if is_token_exec(&cs, "s") || is_token_exec(&cs, "step") {
        Some(BreakpointCommand::Step)
    } else if is_token_exec(&cs, "c") || is_token_exec(&cs, "continue") {
        Some(BreakpointCommand::Continue)
    } else {
        None
    }
}

/// The command named by a raw chat message, if any.
pub fn breakpoint_command(message: &str) -> (r: Option<BreakpointCommand>)
    ensures
        r == message_command(message@),
{
    if contains_exec(&chars_of(message), &chars_of(PROMPT_MARKER)) {
        return None;
    }
    let folded = lowercase(message);
    command_of_folded(trim(folded.as_str()))
}

/// A breakpoint in progress.
pub struct BreakpointController {
    pub state: BreakpointState,
}

impl BreakpointController {
    /// A breakpoint whose prompt is still to be sent.
    pub fn new() -> (r: BreakpointController)
        ensures
            r.state == BreakpointState::Prompting,
    {
        BreakpointController { state: BreakpointState::Prompting }
    }

    /// The prompt to send; the breakpoint then waits for the operator.
    pub fn prompt(&mut self) -> (r: &'static str)
        requires
            old(self).state == BreakpointState::Prompting,
        ensures
            final(self).state == BreakpointState::Waiting,
            r@ == PROMPT_COMMAND@,
    {
        self.state = BreakpointState::Waiting;
        PROMPT_COMMAND
    }

    /// Takes one received chat message. A step or continue command ends the
    /// wait; the controller's own prompt and any other chatter leave it
    /// waiting.
    pub fn on_message(&mut self, message: &str)
        requires
            old(self).state == BreakpointState::Waiting,
        ensures
            final(self).state == match message_command(message@) {
                Some(BreakpointCommand::Step) => BreakpointState::Stepped,
                Some(BreakpointCommand::Continue) => BreakpointState::Continued,
                None => BreakpointState::Waiting,
            },
    {
        match breakpoint_command(message) {
            Some(BreakpointCommand::Step) => {
                self.state = BreakpointState::Stepped;
            },
            Some(BreakpointCommand::Continue) => {
                self.state = BreakpointState::Continued;
            },
            None => {},
        }
    }

    /// Whether the operator has decided.
    pub fn is_done(&self) -> (r: bool)
        ensures
            r == (self.state == BreakpointState::Stepped || self.state
                == BreakpointState::Continued),
    {
        match self.state {
            BreakpointState::Stepped | BreakpointState::Continued => true,
            _ => false,
        }
    }
}

/// Any message that holds the controller's own prompt phrase is ignored,
/// whatever else it says.
pub proof fn lemma_own_prompt_ignored(m: Seq<char>)
    requires
        contains(m, PROMPT_MARKER@),
    ensures
        message_command(m) is None,
{
}

/// A message that is exactly the sent prompt names no command.
pub proof fn lemma_prompt_text_ignored()
    ensures
        message_command(PROMPT_COMMAND@) is None,
{
    reveal_strlit("say Waiting for step/continue (s = step, c = continue)");
    reveal_strlit("Waiting for step/continue");
    let m = PROMPT_COMMAND@;
    let p = PROMPT_MARKER@;
    assert(m.subrange(4, 4 + p.len() as int) =~= p);
    assert(crate::text::occurs_at(m, p, 4));
}

} // verus!
