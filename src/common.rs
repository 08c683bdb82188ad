use vstd::prelude::*;

verus! {

/// The inputs and events the board reacts to.
#[derive(Clone, Copy, Debug, PartialEq, Eq)]
pub enum Message {
    MoveCursorUp,
    MoveCursorDown,
    MoveCursorLeft,
    MoveCursorRight,
    Confirm,
    Cancel,
    CancelReleased,
    FinishTurn,
    LeftClickAt(i32, i32),
    LeftReleasedAt(i32, i32),
    RightClickAt(i32, i32),
    RightReleasedAt(i32, i32),
    MouseMovedTo(i32, i32),
    MouseScroll(i32, i32),
    UnitSpent((u32, u32)),
    UnitMoved((u32, u32), (u32, u32)),
    TargetConfirmed((u32, u32), (u32, u32)),
    ApplyOneModal,
    AttackSelected((u32, u32), (u32, u32)),
    CaptureSelected((u32, u32)),
    WaitSelected,
    CancelSelected((u32, u32), (u32, u32)),
    TargetSelectorCanceled((u32, u32), (u32, u32)),
    Exit,
}

/// Settings of a match; none so far.
#[derive(Clone, Copy, Debug)]
pub struct Config {}

} // verus!
