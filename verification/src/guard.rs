//! Asking a scope whether it may be torn down.
//!
//! A guard is a stage of navigation, not a redirect: the question goes to
//! the user, and a [`Decision`] carries the answer back.

use vstd::prelude::*;

verus! {

/// What to put to the user when a guard wants an answer.
///
/// Plain data, no toolkit: every backend can draw three strings.
#[derive(Clone, Debug, PartialEq, Eq)]
pub struct Ask {
    pub text: String,
    pub confirm: String,
    pub cancel: String,
}

impl Ask {
    pub fn new(text: impl Into<String>, confirm: impl Into<String>, cancel: impl Into<String>) -> (r: Ask)
        ensures
            call_ensures(Into::<String>::into, (text,), r.text),
            call_ensures(Into::<String>::into, (confirm,), r.confirm),
            call_ensures(Into::<String>::into, (cancel,), r.cancel),
    {
        Ask { text: text.into(), confirm: confirm.into(), cancel: cancel.into() }
    }
}

/// The answer to a guard's question, before there is one.
///
/// Settling twice does nothing: a superseded navigation may leave a token
/// nobody will ever answer, and a dialog closed twice must not answer twice.
#[derive(Clone, Copy, Debug, PartialEq, Eq, Structural)]
pub enum Decision {
    /// Nobody has answered, and nobody is waiting.
    Open,
    /// Nobody has answered; someone is waiting for the answer.
    Awaited,
    /// The answer is in.
    Settled(bool),
}

/// What a guard answers: go ahead, stay, or not yet - the question goes to
/// the user, and the [`Decision`] carries the answer back.
#[derive(Clone, Debug)]
pub enum Verdict {
    Allow,
    Block,
    Ask(Ask, Decision),
}

impl Verdict {
    /// A question to put to the user, with nobody's answer yet.
    pub fn ask(ask: Ask) -> (r: Verdict)
        ensures
            r == Verdict::Ask(ask, Decision::Open),
    {
        Verdict::Ask(ask, Decision::new())
    }
}

/// What to do with an answer, now that it is in.
#[derive(Clone, Copy, Debug, PartialEq, Eq, Structural)]
pub enum Resume {
    /// Tell whoever was waiting.
    Tell(bool),
    /// Nothing: nobody is waiting yet, or the answer was already given.
    Nothing,
}

impl Decision {
    pub fn new() -> (r: Decision)
        ensures
            r == Decision::Open,
    {
        Decision::Open
    }

    pub fn is_settled(&self) -> (r: bool)
        ensures
            r == (*self is Settled),
    {
        match self {
            Decision::Settled(_) => true,
            _ => false,
        }
    }

    /// The answer arrives: the first one counts, and whoever was waiting is
    /// told it; any later one changes nothing.
    pub fn settle(&mut self, allowed: bool) -> (r: Resume)
        ensures
            match *old(self) {
                Decision::Settled(_) => *final(self) == *old(self) && r == Resume::Nothing,
                Decision::Awaited => *final(self) == Decision::Settled(allowed) && r == Resume::Tell(allowed),
                Decision::Open => *final(self) == Decision::Settled(allowed) && r == Resume::Nothing,
            },
    {
        match *self {
            Decision::Settled(_) => Resume::Nothing,
            Decision::Awaited => {
                *self = Decision::Settled(allowed);
                Resume::Tell(allowed)
            },
            Decision::Open => {
                *self = Decision::Settled(allowed);
                Resume::Nothing
            },
        }
    }

    /// Go ahead with the navigation that was parked.
    pub fn allow(&mut self) -> (r: Resume)
        ensures
            match *old(self) {
                Decision::Settled(_) => *final(self) == *old(self) && r == Resume::Nothing,
                Decision::Awaited => *final(self) == Decision::Settled(true) && r == Resume::Tell(true),
                Decision::Open => *final(self) == Decision::Settled(true) && r == Resume::Nothing,
            },
    {
        self.settle(true)
    }

    /// Stay where we are.
    pub fn block(&mut self) -> (r: Resume)
        ensures
            match *old(self) {
                Decision::Settled(_) => *final(self) == *old(self) && r == Resume::Nothing,
                Decision::Awaited => *final(self) == Decision::Settled(false) && r == Resume::Tell(false),
                Decision::Open => *final(self) == Decision::Settled(false) && r == Resume::Nothing,
            },
    {
        self.settle(false)
    }

    /// Someone starts waiting for the answer: if it already arrived, they
    /// are told it at once - a guard may settle its own token before it
    /// returns, and nothing depends on which came first.
    pub fn on_answer(&mut self) -> (r: Resume)
        ensures
            match *old(self) {
                Decision::Settled(allowed) => *final(self) == *old(self) && r == Resume::Tell(allowed),
                _ => *final(self) == Decision::Awaited && r == Resume::Nothing,
            },
    {
        match *self {
            Decision::Settled(allowed) => Resume::Tell(allowed),
            _ => {
                *self = Decision::Awaited;
                Resume::Nothing
            },
        }
    }
}

} // verus!
