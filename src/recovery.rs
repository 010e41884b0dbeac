use vstd::prelude::*;

verus! {

/// What a screen of the recovery view asks for after a key press.
#[derive(Clone, Copy, Debug, PartialEq, Eq, Structural)]
pub enum ShouldExit {
    No,
    OnlySubScreen,
    Yes,
}

/// Where the account's recovery stands, as the client reports it.
#[derive(Clone, Copy, Debug, PartialEq, Eq, Structural)]
pub enum RecoveryState {
    Unknown,
    Enabled,
    Disabled,
    Incomplete,
}

/// Which screen the recovery view shows.
#[derive(Clone, Copy, Debug, PartialEq, Eq, Structural)]
pub enum RecoveryMode {
    /// Waiting for the recovery state, with a throbber.
    Unknown,
    /// Recovery is incomplete: enter the recovery key, or reset.
    Incomplete,
    /// Recovery can be enabled or disabled.
    Default,
}

/// A key press, as far as the recovery view reads it.
#[derive(Clone, Copy, Debug, PartialEq, Eq, Structural)]
pub enum KeyPress {
    Esc,
    Char(char),
    Other,
}

/// The screen to show for a recovery state. From the incomplete screen to an
/// enabled recovery, and from the default screen to an incomplete one, no
/// screen is defined.
pub open spec fn mode_for(mode: RecoveryMode, state: RecoveryState) -> RecoveryMode {
    match (mode, state) {
        (RecoveryMode::Unknown, RecoveryState::Disabled) => RecoveryMode::Default,
        (RecoveryMode::Unknown, RecoveryState::Enabled) => RecoveryMode::Default,
        (RecoveryMode::Unknown, RecoveryState::Incomplete) => RecoveryMode::Incomplete,
        (RecoveryMode::Incomplete, RecoveryState::Disabled) => RecoveryMode::Default,
        (_, RecoveryState::Unknown) => RecoveryMode::Unknown,
        _ => mode,
    }
}

pub open spec fn transition_defined(mode: RecoveryMode, state: RecoveryState) -> bool {
    !(mode == RecoveryMode::Incomplete && state == RecoveryState::Enabled) && !(mode == RecoveryMode::Default && state
        == RecoveryState::Incomplete)
}

/// The decisions of the recovery view; the client, the screens and the
/// throbber stay with the caller.
pub struct RecoveryViewState {
    pub mode: RecoveryMode,
}

impl RecoveryViewState {
    pub fn new() -> (r: Self)
        ensures
            r.mode == RecoveryMode::Unknown,
    {
        RecoveryViewState { mode: RecoveryMode::Unknown }
    }

    /// Follows the client's recovery state.
    pub fn update_state(&mut self, state: RecoveryState)
        requires
            transition_defined(old(self).mode, state),
        ensures
            final(self).mode == mode_for(old(self).mode, state),
    {
        self.mode = match (self.mode, state) {
            (RecoveryMode::Unknown, RecoveryState::Disabled) => RecoveryMode::Default,
            (RecoveryMode::Unknown, RecoveryState::Enabled) => RecoveryMode::Default,
            (RecoveryMode::Unknown, RecoveryState::Incomplete) => RecoveryMode::Incomplete,
            (RecoveryMode::Incomplete, RecoveryState::Disabled) => RecoveryMode::Default,
            (_, RecoveryState::Unknown) => RecoveryMode::Unknown,
            (mode, _) => mode,
        };
    }

    /// Handles a key press; `screen` is what the shown screen made of it
    /// (unused while waiting). Says whether to leave the recovery view: on
    /// `Esc` or `q` while waiting, or when the screen asks for it. A screen
    /// that closes itself brings back the waiting screen.
    pub fn handle_key_press(&mut self, key: KeyPress, screen: ShouldExit) -> (r: bool)
        ensures
            old(self).mode == RecoveryMode::Unknown ==> r == (key == KeyPress::Esc || key == KeyPress::Char('q'))
                && final(self).mode == RecoveryMode::Unknown,
            old(self).mode != RecoveryMode::Unknown ==> r == (screen == ShouldExit::Yes) && final(self).mode == (
            if screen == ShouldExit::OnlySubScreen {
                RecoveryMode::Unknown
            } else {
                old(self).mode
            }),
    {
        match self.mode {
            RecoveryMode::Unknown => match key {
                KeyPress::Esc => true,
                KeyPress::Char(c) => c == 'q',
                KeyPress::Other => false,
            },
            _ => match screen {
                ShouldExit::No => false,
                ShouldExit::OnlySubScreen => {
                    self.mode = RecoveryMode::Unknown;
                    false
                },
                ShouldExit::Yes => true,
            },
        }
    }
}

} // verus!
