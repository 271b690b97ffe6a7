//! What a key does: the next state, and what the terminal loop has to do.

use vstd::prelude::*;

use crate::app::{held_selection, scope_adjusted, targets_of, toggled, with_status};
use crate::app_laws::law_input_stays_ready;
use crate::model::{App, AppView, Mode};
use crate::text::texts;

verus! {

/// A key of the keyboard.
#[derive(Debug, Clone, Copy, PartialEq, Eq, Structural)]
pub enum Key {
    Char(char),
    Enter,
    Esc,
    Up,
    Down,
    Left,
    Right,
    /// Any other key.
    Other,
}

/// What the terminal reports.
#[derive(Debug, Clone, Copy, PartialEq, Eq, Structural)]
pub enum Input {
    /// A key was pressed.
    Press(Key),
    /// A key was released or repeats.
    OtherKeyEvent(Key),
    /// Nothing happened, or something that is no key.
    Nothing,
}

/// What the terminal loop has to do next.
#[derive(Debug)]
pub enum Effect {
    /// Draw and wait for input.
    Continue,
    /// Leave the loop.
    Quit,
    /// Read Defender's state and hand it to `App::refresh_with_status`.
    Refresh,
    /// Add the paths, to the Group Policy list too where `write_policy` is set,
    /// then read Defender's state and hand it to `apply_with_status`.
    Apply { paths: Vec<String>, write_policy: bool },
}

/// What the terminal loop has to do next.
pub enum EffectView {
    Continue,
    Quit,
    Refresh,
    Apply { paths: Seq<Seq<char>>, write_policy: bool },
}

impl View for Effect {
    type V = EffectView;

    open spec fn view(&self) -> EffectView {
        match *self {
            Effect::Continue => EffectView::Continue,
            Effect::Quit => EffectView::Quit,
            Effect::Refresh => EffectView::Refresh,
            Effect::Apply { paths, write_policy } => EffectView::Apply {
                paths: texts(paths@),
                write_policy,
            },
        }
    }
}

/// What a key does while the table has the keys.
pub open spec fn browse(app: AppView, key: Key) -> (AppView, EffectView) {
    match key {
        Key::Char('q') | Key::Esc => (app, EffectView::Quit),
        Key::Down | Key::Char('j') => (
            AppView { selected: held_selection(app.selected + 1, app.items.len()), ..app },
            EffectView::Continue,
        ),
        Key::Up | Key::Char('k') => (
            AppView {
                selected: if app.selected > 0 {
                    (app.selected - 1) as nat
                } else {
                    0
                },
                ..app
            },
            EffectView::Continue,
        ),
        Key::Char(' ') => (toggled(app), EffectView::Continue),
        Key::Left | Key::Char('h') | Key::Char('-') => (
            scope_adjusted(app, 1),
            EffectView::Continue,
        ),
        Key::Right | Key::Char('l') | Key::Char('+') => (
            scope_adjusted(app, -1),
            EffectView::Continue,
        ),
        Key::Char('r') => (app, EffectView::Refresh),
        Key::Enter | Key::Char('a') => (
            if app.checked.is_empty() {
                with_status(app, "Select at least one red [X] item first."@)
            } else {
                AppView { mode: Mode::ConfirmApply, ..app }
            },
            EffectView::Continue,
        ),
        _ => (app, EffectView::Continue),
    }
}

/// What a key does while the question before applying has the keys.
pub open spec fn confirm(app: AppView, key: Key) -> (AppView, EffectView) {
    match key {
        Key::Char('y') | Key::Enter => (
            AppView { mode: Mode::Browse, ..app },
            EffectView::Apply { paths: targets_of(app), write_policy: app.policy_enabled },
        ),
        Key::Char('n') | Key::Esc => (
            AppView { mode: Mode::Browse, status: "No changes were made."@, ..app },
            EffectView::Continue,
        ),
        _ => (app, EffectView::Continue),
    }
}

/// The state after `input`, and what is to be done next.
pub open spec fn next(app: AppView, input: Input) -> (AppView, EffectView) {
    match input {
        Input::Press(key) => match app.mode {
            Mode::Browse => browse(app, key),
            Mode::ConfirmApply => confirm(app, key),
        },
        _ => (app, EffectView::Continue),
    }
}

/// Acts on what the terminal reports.
pub fn handle_input(app: &mut App, input: Input) -> (r: Effect)
    ensures
        (final(app)@, r@) == next(old(app)@, input),
        old(app)@.ready() ==> final(app)@.ready(),
{
    proof {
        if app@.ready() {
            law_input_stays_ready(app@, input);
        }
    }
    match input {
        Input::Press(key) => match app.mode {
            Mode::Browse => handle_browse(app, key),
            Mode::ConfirmApply => handle_confirm(app, key),
        },
        _ => Effect::Continue,
    }
}

fn handle_browse(app: &mut App, key: Key) -> (r: Effect)
    ensures
        (final(app)@, r@) == browse(old(app)@, key),
{
    match key {
        Key::Char('q') | Key::Esc => Effect::Quit,
        Key::Down | Key::Char('j') => {
            if app.items.len() == 0 {
                app.selected = 0;
            } else if app.selected >= app.items.len() - 1 {
                app.selected = app.items.len() - 1;
            } else {
                app.selected = app.selected + 1;
            }
            Effect::Continue
        },
        Key::Up | Key::Char('k') => {
            if app.selected > 0 {
                app.selected = app.selected - 1;
            }
            Effect::Continue
        },
        Key::Char(' ') => {
            app.toggle_selected();
            Effect::Continue
        },
        Key::Left | Key::Char('h') | Key::Char('-') => {
            app.adjust_scope(1);
            Effect::Continue
        },
        Key::Right | Key::Char('l') | Key::Char('+') => {
            app.adjust_scope(-1);
            Effect::Continue
        },
        Key::Char('r') => Effect::Refresh,
        Key::Enter | Key::Char('a') => {
            if app.checked.is_empty() {
                app.status = "Select at least one red [X] item first.".to_owned();
            } else {
                app.mode = Mode::ConfirmApply;
            }
            Effect::Continue
        },
        _ => Effect::Continue,
    }
}

fn handle_confirm(app: &mut App, key: Key) -> (r: Effect)
    ensures
        (final(app)@, r@) == confirm(old(app)@, key),
{
    match key {
        Key::Char('y') | Key::Enter => {
            let paths = app.selected_paths();
            app.mode = Mode::Browse;
            Effect::Apply { paths, write_policy: app.policy_enabled }
        },
        Key::Char('n') | Key::Esc => {
            app.mode = Mode::Browse;
            app.status = "No changes were made.".to_owned();
            Effect::Continue
        },
        _ => Effect::Continue,
    }
}

} // verus!
