//! The state machine behind the interactive display.
use vstd::prelude::*;

verus! {

/// Where the interactive display stands.
#[derive(Debug, Clone, Copy, PartialEq, Eq, Structural)]
pub enum RunningState {
    Running,
    Updating,
    Done,
}

/// A request from the user.
#[derive(Debug, Clone, Copy, PartialEq, Eq, Structural)]
pub enum Message {
    Update,
    Quit,
}

/// The interactive display's state.
#[derive(Debug)]
pub struct Model {
    pub running_state: RunningState,
}

impl Default for Model {
    fn default() -> (r: Self)
        ensures
            r.running_state == RunningState::Running,
    {
        Model { running_state: RunningState::Running }
    }
}

impl Model {
    /// The state that `msg` leads to.
    pub open spec fn next_state(msg: Message) -> RunningState {
        match msg {
            Message::Update => RunningState::Updating,
            Message::Quit => RunningState::Done,
        }
    }

    /// Applies `msg`: an update request moves to `Updating`, a quit request
    /// to `Done`.
    pub fn update(&mut self, msg: Message) -> (r: RunningState)
        ensures
            r == Self::next_state(msg),
            final(self).running_state == r,
    {
        let next = match msg {
            Message::Update => RunningState::Updating,
            Message::Quit => RunningState::Done,
        };
        self.running_state = next;
        next
    }

    /// The message that a key press asks for: `u` updates, `q` quits, any
    /// other key asks for nothing.
    pub fn handle_key(key: char) -> (r: Option<Message>)
        ensures
            key == 'u' ==> r == Some(Message::Update),
            key == 'q' ==> r == Some(Message::Quit),
            key != 'u' && key != 'q' ==> r is None,
    {
        if key == 'u' {
            Some(Message::Update)
        } else if key == 'q' {
            Some(Message::Quit)
        } else {
            None
        }
    }

    /// The display keeps running until a quit request.
    pub fn is_running(&self) -> (r: bool)
        ensures
            r == (self.running_state != RunningState::Done),
    {
        self.running_state != RunningState::Done
    }
}

} // verus!
