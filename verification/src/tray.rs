//! The icon in the tray, and what is done with the window of the program.

use vstd::prelude::*;

use crate::paths;
use crate::paths::{join_path, parent, System};
use crate::server;
use crate::text::same_text;

verus! {

/// The title of the window, and of the icon while nothing waits to be read.
pub const TITLE: &'static str = "LocalTransfer";

/// The title of the icon while something waits to be read.
pub const UNREAD_TITLE: &'static str = "LocalTransfer · 有未读消息";

/// How often the button of the window blinks.
pub const FLASHES: u32 = 5;

/// Milliseconds between two steps of the blinking.
pub const BLINK_MS: u32 = 700;

// ---------------------------------------------------------------------------
// Blinking
// ---------------------------------------------------------------------------

/// What the icon shows.
#[derive(Debug, PartialEq, Eq, Structural, Clone, Copy)]
pub struct Tray {
    /// Whether something waits to be read.
    pub unread: bool,
    /// Whether the icon is hidden for the moment.
    pub blink_on: bool,
    /// Whether the title and the mark say that something waits.
    pub marked: bool,
}

/// What is to be done with the icon; what is `None` stays.
#[derive(Debug, PartialEq, Eq)]
pub struct TrayStep {
    pub visible: Option<bool>,
    /// The mark at the button of the window.
    pub overlay: Option<bool>,
    pub tooltip: Option<String>,
}

/// [`TrayStep`] as the contracts speak of it.
#[verifier::ext_equal]
pub struct TrayStepView {
    pub visible: Option<bool>,
    pub overlay: Option<bool>,
    pub tooltip: Option<Seq<char>>,
}

impl DeepView for TrayStep {
    type V = TrayStepView;

    open spec fn deep_view(&self) -> TrayStepView {
        TrayStepView {
            visible: self.visible.deep_view(),
            overlay: self.overlay.deep_view(),
            tooltip: self.tooltip.deep_view(),
        }
    }
}

/// One step: while something waits the icon is hidden and shown in turn, and
/// the title and the mark follow as soon as that changes.
pub open spec fn ticked(t: Tray) -> Tray {
    Tray { unread: t.unread, blink_on: t.unread && !t.blink_on, marked: t.unread }
}

pub open spec fn tick_step(t: Tray) -> TrayStepView {
    TrayStepView {
        visible: if t.unread {
            Some(t.blink_on)
        } else if t.blink_on {
            Some(true)
        } else {
            None
        },
        overlay: if t.marked != t.unread {
            Some(t.unread)
        } else {
            None
        },
        tooltip: if t.marked == t.unread {
            None
        } else if t.unread {
            Some(UNREAD_TITLE@)
        } else {
            Some(TITLE@)
        },
    }
}

/// An icon that was just made.
pub fn fresh_tray() -> (r: Tray)
    ensures
        r == (Tray { unread: false, blink_on: false, marked: false }),
{
    Tray { unread: false, blink_on: false, marked: false }
}

pub fn set_unread(tray: &mut Tray, has_unread: bool)
    ensures
        *final(tray) == (Tray { unread: has_unread, ..*old(tray) }),
{
    tray.unread = has_unread;
}

pub fn tick(tray: &mut Tray) -> (r: TrayStep)
    ensures
        *final(tray) == ticked(*old(tray)),
        r.deep_view() == tick_step(*old(tray)),
{
    let mut visible: Option<bool> = None;
    let mut overlay: Option<bool> = None;
    let mut tooltip: Option<String> = None;
    if tray.unread {
        tray.blink_on = !tray.blink_on;
        visible = Some(!tray.blink_on);
    } else if tray.blink_on {
        tray.blink_on = false;
        visible = Some(true);
    }
    if tray.marked != tray.unread {
        tray.marked = tray.unread;
        overlay = Some(tray.unread);
        let t = if tray.unread {
            UNREAD_TITLE
        } else {
            TITLE
        };
        tooltip = Some(t.to_owned());
    }
    TrayStep { visible, overlay, tooltip }
}

pub open spec fn kept_or<A>(now: A, step: Option<A>) -> A {
    match step {
        Some(x) => x,
        None => now,
    }
}

/// Whether the icon on the screen is what the program takes it for.
pub open spec fn in_step(t: Tray, visible: bool, overlay: bool, title: Seq<char>) -> bool {
    &&& visible == !t.blink_on
    &&& overlay == t.marked
    &&& title == if t.marked {
        UNREAD_TITLE@
    } else {
        TITLE@
    }
}

/// Carrying out each step keeps the screen in step with the program, and once
/// nothing waits to be read a single step leaves the icon visible and without
/// mark.
pub proof fn law_icon_follows_unread(t: Tray, visible: bool, overlay: bool, title: Seq<char>)
    requires
        in_step(t, visible, overlay, title),
    ensures
        ({
            let s = tick_step(t);
            let v = kept_or(visible, s.visible);
            let m = kept_or(overlay, s.overlay);
            let n = kept_or(title, s.tooltip);
            &&& in_step(ticked(t), v, m, n)
            &&& m == t.unread
            &&& !t.unread ==> v && n == TITLE@
            &&& t.unread ==> v == !visible && n == UNREAD_TITLE@
        }),
{
}

// ---------------------------------------------------------------------------
// Clicks
// ---------------------------------------------------------------------------

/// What a click in the tray asks for.
#[derive(Debug, PartialEq, Eq, Structural, Clone, Copy)]
pub enum TrayAction {
    Nothing,
    Show,
    Quit,
}

/// What the pointer did at the icon.
#[derive(Debug, PartialEq, Eq, Structural, Clone, Copy)]
pub enum TrayClick {
    /// One or two clicks of the left button.
    Left,
    /// Anything else; the right button opens the menu.
    Other,
}

pub fn on_icon(click: TrayClick) -> (r: TrayAction)
    ensures
        r == (if click == TrayClick::Left {
            TrayAction::Show
        } else {
            TrayAction::Nothing
        }),
{
    match click {
        TrayClick::Left => TrayAction::Show,
        TrayClick::Other => TrayAction::Nothing,
    }
}

/// What an entry of the menu asks for.
pub fn on_menu(id: &str, open_id: &str, quit_id: &str) -> (r: TrayAction)
    ensures
        r == (if id@ == quit_id@ {
            TrayAction::Quit
        } else if id@ == open_id@ {
            TrayAction::Show
        } else {
            TrayAction::Nothing
        }),
{
    if same_text(id, quit_id) {
        TrayAction::Quit
    } else if same_text(id, open_id) {
        TrayAction::Show
    } else {
        TrayAction::Nothing
    }
}

// ---------------------------------------------------------------------------
// The window
// ---------------------------------------------------------------------------

/// A window on the screen.
#[derive(Debug, PartialEq, Eq)]
pub struct WindowInfo {
    pub handle: i64,
    pub process: u32,
    pub title: String,
}

/// [`WindowInfo`] as the contracts speak of it.
#[verifier::ext_equal]
pub struct WindowInfoView {
    pub handle: i64,
    pub process: u32,
    pub title: Seq<char>,
}

impl DeepView for WindowInfo {
    type V = WindowInfoView;

    open spec fn deep_view(&self) -> WindowInfoView {
        WindowInfoView {
            handle: self.handle.deep_view(),
            process: self.process.deep_view(),
            title: self.title.deep_view(),
        }
    }
}

pub open spec fn is_main(w: WindowInfoView, process: u32) -> bool {
    w.process == process && w.title == TITLE@
}

/// The window of this program: the first of its process with the title.
pub open spec fn main_window(s: Seq<WindowInfoView>, process: u32) -> Option<i64>
    decreases s.len(),
{
    if s.len() == 0 {
        None
    } else if is_main(s[0], process) {
        Some(s[0].handle)
    } else {
        main_window(s.skip(1), process)
    }
}

pub fn find_main_window(windows: &Vec<WindowInfo>, process: u32) -> (r: Option<i64>)
    ensures
        r == main_window(windows.deep_view(), process),
{
    let ghost all = windows.deep_view();
    let mut i: usize = 0;
    assert(all.skip(0) =~= all);
    while i < windows.len()
        invariant
            all == windows.deep_view(),
            i <= windows@.len(),
            main_window(all, process) == main_window(all.skip(i as int), process),
        decreases windows@.len() - i,
    {
        assert(all[i as int] == windows@[i as int].deep_view());
        assert(all.skip(i as int)[0] == all[i as int]);
        assert(all.skip(i as int).skip(1) =~= all.skip(i + 1));
        if windows[i].process == process && same_text(windows[i].title.as_str(), TITLE) {
            return Some(windows[i].handle);
        }
        i = i + 1;
    }
    None
}

/// What is done with a window.
#[derive(Debug, PartialEq, Eq, Structural, Clone, Copy)]
pub enum WindowStep {
    Show(i64),
    Restore(i64),
    ToFront(i64),
    Hide(i64),
    /// The button blinks this often, until the window comes to the front.
    Flash(i64, u32),
}

/// Brings the window back and to the front.
pub fn show_main_window(main: Option<i64>) -> (r: Vec<WindowStep>)
    ensures
        r@ == (match main {
            Some(h) => seq![WindowStep::Show(h), WindowStep::Restore(h), WindowStep::ToFront(h)],
            None => Seq::empty(),
        }),
{
    let mut out: Vec<WindowStep> = Vec::new();
    match main {
        Some(h) => {
            out.push(WindowStep::Show(h));
            out.push(WindowStep::Restore(h));
            out.push(WindowStep::ToFront(h));
        },
        None => {},
    }
    out
}

/// Leaves only the icon.
pub fn hide_main_window(main: Option<i64>) -> (r: Vec<WindowStep>)
    ensures
        r@ == (match main {
            Some(h) => seq![WindowStep::Hide(h)],
            None => Seq::empty(),
        }),
{
    let mut out: Vec<WindowStep> = Vec::new();
    match main {
        Some(h) => {
            out.push(WindowStep::Hide(h));
        },
        None => {},
    }
    out
}

/// Whether the window is the one that the user works with.
pub fn is_foreground(main: Option<i64>, front: i64) -> (r: bool)
    ensures
        r == (main == Some(front)),
{
    match main {
        Some(h) => h == front,
        None => false,
    }
}

/// Draws attention to the window.
pub fn flash_taskbar(main: Option<i64>) -> (r: Vec<WindowStep>)
    ensures
        r@ == (match main {
            Some(h) => seq![WindowStep::Flash(h, FLASHES)],
            None => Seq::empty(),
        }),
{
    let mut out: Vec<WindowStep> = Vec::new();
    match main {
        Some(h) => {
            out.push(WindowStep::Flash(h, FLASHES));
        },
        None => {},
    }
    out
}

// ---------------------------------------------------------------------------
// The picture
// ---------------------------------------------------------------------------

/// Where the picture of the icon may be: beside the program, in its folder for
/// such files, in the folder of the sources.
pub open spec fn icon_places(
    program: Seq<char>,
    sources: Seq<char>,
    name: Seq<char>,
    sys: System,
) -> Seq<Seq<char>> {
    let beside = match paths::ancestor_text(program, 1, sys) {
        Some(dir) => seq![
            paths::joined_path(dir, name, sys),
            paths::joined_path(paths::joined_path(dir, "assets"@, sys), name, sys),
        ],
        None => Seq::empty(),
    };
    beside.push(paths::joined_path(paths::joined_path(sources, "../../assets"@, sys), name, sys))
}

fn list_icon_places(program: &str, sources: &str, name: &str, sys: System) -> (r: Vec<String>)
    ensures
        r.deep_view() == icon_places(program@, sources@, name@, sys),
{
    let mut out: Vec<String> = Vec::new();
    let ghost beside = match paths::ancestor_text(program@, 1, sys) {
        Some(dir) => seq![
            paths::joined_path(dir, name@, sys),
            paths::joined_path(paths::joined_path(dir, "assets"@, sys), name@, sys),
        ],
        None => Seq::empty(),
    };
    match parent(program, sys) {
        Some(dir) => {
            out.push(join_path(dir.as_str(), name, sys));
            let assets = join_path(dir.as_str(), "assets", sys);
            out.push(join_path(assets.as_str(), name, sys));
        },
        None => {},
    }
    assert(out.deep_view() =~= beside);
    let assets = join_path(sources, "../../assets", sys);
    let last = join_path(assets.as_str(), name, sys);
    let ghost lv = last@;
    out.push(last);
    assert(out.deep_view() =~= beside.push(lv));
    out
}

/// The first place where the picture of the icon is.
pub fn icon_path<F: Fn(&str) -> bool>(
    program: &str,
    sources: &str,
    name: &str,
    sys: System,
    there: F,
) -> (r: Option<String>)
    requires
        forall|s: &str| call_requires(there, (s,)),
    ensures
        ({
            let places = icon_places(program@, sources@, name@, sys);
            match r {
                Some(p) => exists|k: int|
                    0 <= k < places.len() && #[trigger] places[k] == p@ && server::told(
                        there,
                        p@,
                        true,
                    ) && forall|j: int|
                        0 <= j < k ==> server::told(there, #[trigger] places[j], false),
                None => forall|j: int|
                    0 <= j < places.len() ==> server::told(there, #[trigger] places[j], false),
            }
        }),
{
    let list = list_icon_places(program, sources, name, sys);
    let ghost places = list.deep_view();
    let mut k: usize = 0;
    while k < list.len()
        invariant
            forall|s: &str| call_requires(there, (s,)),
            places == list.deep_view(),
            places == icon_places(program@, sources@, name@, sys),
            k <= list@.len(),
            forall|j: int| 0 <= j < k ==> server::told(there, #[trigger] places[j], false),
        decreases list@.len() - k,
    {
        let found = there(list[k].as_str());
        assert(places[k as int] == list@[k as int]@);
        assert(server::told(there, places[k as int], found));
        if found {
            return Some(list[k].clone());
        }
        k = k + 1;
    }
    None
}

/// The window that is shown is one of this program, under its title; none is
/// where the program has none.
pub proof fn law_main_window_is_ours(s: Seq<WindowInfoView>, process: u32)
    ensures
        main_window(s, process) is None <==> forall|i: int|
            0 <= i < s.len() ==> !((#[trigger] s[i]).process == process && s[i].title == TITLE@),
        main_window(s, process) is Some ==> exists|i: int|
            0 <= i < s.len() && (#[trigger] s[i]).process == process && s[i].title == TITLE@
                && s[i].handle == main_window(s, process)->Some_0,
    decreases s.len(),
{
    if s.len() > 0 {
        if is_main(s[0], process) {
            assert(s[0].handle == main_window(s, process)->Some_0);
        } else {
            let t = s.skip(1);
            law_main_window_is_ours(t, process);
            if main_window(t, process) is Some {
                let i = choose|i: int|
                    0 <= i < t.len() && (#[trigger] t[i]).process == process && t[i].title == TITLE@
                        && t[i].handle == main_window(t, process)->Some_0;
                assert(s[i + 1] == t[i]);
            } else {
                assert forall|i: int| 0 <= i < s.len() implies !((#[trigger] s[i]).process
                    == process && s[i].title == TITLE@) by {
                    if i > 0 {
                        assert(t[i - 1] == s[i]);
                    }
                }
            }
        }
    }
}

} // verus!
