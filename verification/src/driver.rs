//! Device-driver vocabulary: actions, points, app records, and the log of
//! recorded actions kept for macro replay.
use vstd::prelude::*;

use crate::adb_error::AdbError;
use crate::error::DroidrunError;
use crate::text::{chars_of, push_str, string_of};

verus! {

/// Information about an installed app.
#[derive(Debug, Clone)]
pub struct AppInfo {
    pub package: String,
    pub label: String,
}

/// A 2D point on screen.
#[derive(Debug, Clone, Copy, PartialEq, Eq, Structural)]
pub struct Point {
    pub x: i32,
    pub y: i32,
}

/// Supported device actions.
#[derive(Debug, Clone, Copy, PartialEq, Eq, Hash, Structural)]
pub enum Action {
    Tap,
    Swipe,
    InputText,
    PressKey,
    Drag,
    StartApp,
    InstallApp,
    Screenshot,
    GetUiTree,
    GetDate,
    GetApps,
    ListPackages,
}

/// A recorded action entry.
#[derive(Debug, Clone)]
pub enum RecordedAction {
    Tap { x: i32, y: i32 },
    Swipe { start_x: i32, start_y: i32, end_x: i32, end_y: i32, duration_ms: u32 },
    InputText { text: String, clear: bool },
    KeyPress { keycode: i32 },
    StartApp { package: String, activity: Option<String> },
    Drag { start_x: i32, start_y: i32, end_x: i32, end_y: i32, duration_ms: u32 },
}

impl RecordedAction {
    /// An identical copy of the entry.
    pub fn duplicate(&self) -> (r: RecordedAction)
        ensures
            r == *self,
    {
        match self {
            RecordedAction::Tap { x, y } => RecordedAction::Tap { x: *x, y: *y },
            RecordedAction::Swipe { start_x, start_y, end_x, end_y, duration_ms } =>
                RecordedAction::Swipe {
                start_x: *start_x,
                start_y: *start_y,
                end_x: *end_x,
                end_y: *end_y,
                duration_ms: *duration_ms,
            },
            RecordedAction::InputText { text, clear } => RecordedAction::InputText {
                text: text.clone(),
                clear: *clear,
            },
            RecordedAction::KeyPress { keycode } => RecordedAction::KeyPress { keycode: *keycode },
            RecordedAction::StartApp { package, activity } => {
                let a = match activity {
                    Some(s) => Some(s.clone()),
                    None => None,
                };
                RecordedAction::StartApp { package: package.clone(), activity: a }
            },
            RecordedAction::Drag { start_x, start_y, end_x, end_y, duration_ms } =>
                RecordedAction::Drag {
                start_x: *start_x,
                start_y: *start_y,
                end_x: *end_x,
                end_y: *end_y,
                duration_ms: *duration_ms,
            },
        }
    }
}

/// The actions a recording driver has logged, oldest first.
pub struct ActionLog {
    entries: Vec<RecordedAction>,
}

impl View for ActionLog {
    type V = Seq<RecordedAction>;

    closed spec fn view(&self) -> Seq<RecordedAction> {
        self.entries@
    }
}

impl ActionLog {
    /// An empty log.
    pub fn new() -> (r: ActionLog)
        ensures
            r@ == Seq::<RecordedAction>::empty(),
    {
        ActionLog { entries: Vec::new() }
    }

    /// Appends an action.
    pub fn record(&mut self, action: RecordedAction)
        ensures
            final(self)@ == old(self)@.push(action),
    {
        self.entries.push(action);
    }

    /// All recorded actions, oldest first.
    pub fn recorded_actions(&self) -> (r: Vec<RecordedAction>)
        ensures
            r@ == self@,
    {
        let mut out: Vec<RecordedAction> = Vec::new();
        let mut i: usize = 0;
        while i < self.entries.len()
            invariant
                i <= self.entries@.len(),
                out@ == self.entries@.take(i as int),
            decreases self.entries@.len() - i,
        {
            out.push(self.entries[i].duplicate());
            assert(self.entries@.take(i + 1) == self.entries@.take(i as int).push(
                self.entries@[i as int],
            ));
            i = i + 1;
        }
        assert(self.entries@.take(self.entries@.len() as int) == self.entries@);
        out
    }

    /// Clears the log.
    pub fn clear_log(&mut self)
        ensures
            final(self)@ == Seq::<RecordedAction>::empty(),
    {
        self.entries.clear();
    }

    /// The number of recorded actions.
    pub fn len(&self) -> (r: usize)
        ensures
            r == self@.len(),
    {
        self.entries.len()
    }
}

/// The actions an ADB-backed driver supports: all of them.
pub fn android_supported_actions() -> (r: Vec<Action>)
    ensures
        r@ == seq![
            Action::Tap,
            Action::Swipe,
            Action::InputText,
            Action::PressKey,
            Action::StartApp,
            Action::InstallApp,
            Action::Screenshot,
            Action::GetUiTree,
            Action::GetDate,
            Action::GetApps,
            Action::ListPackages,
            Action::Drag,
        ],
{
    let mut v: Vec<Action> = Vec::new();
    v.push(Action::Tap);
    v.push(Action::Swipe);
    v.push(Action::InputText);
    v.push(Action::PressKey);
    v.push(Action::StartApp);
    v.push(Action::InstallApp);
    v.push(Action::Screenshot);
    v.push(Action::GetUiTree);
    v.push(Action::GetDate);
    v.push(Action::GetApps);
    v.push(Action::ListPackages);
    v.push(Action::Drag);
    v
}

/// The `pm list packages` flags for listing apps: `-3` (third-party only)
/// unless system apps are included.
pub fn package_flags(include_system: bool) -> (r: Vec<&'static str>)
    ensures
        include_system ==> r@.len() == 0,
        !include_system ==> r@.len() == 1 && r@[0]@ == "-3"@,
{
    let mut v: Vec<&'static str> = Vec::new();
    if !include_system {
        v.push("-3");
    }
    v
}

/// The answer of a driver's `start_app` when the launch fails.
pub fn start_failure_message(package: &str, error: &AdbError) -> (r: String)
    ensures
        r@ == "Failed to start app "@ + package@ + ": "@ + error.message(),
{
    let mut v = chars_of("Failed to start app ");
    push_str(&mut v, package);
    push_str(&mut v, ": ");
    let m = error.to_string();
    push_str(&mut v, m.as_str());
    string_of(v.as_slice())
}

/// The error of a driver that cannot drag.
pub fn drag_unsupported() -> (r: DroidrunError)
    ensures
        r matches DroidrunError::NotSupported(m) && m@ == "drag is not implemented yet"@,
{
    DroidrunError::NotSupported("drag is not implemented yet".to_owned())
}

} // verus!
