use crate::position::Position;
use vstd::prelude::*;

verus! {

/// Index of the settings row that holds the board width.
pub const WIDTH_INDEX: usize = 0;

/// Index of the settings row that holds the board height.
pub const HEIGHT_INDEX: usize = 1;

/// Index of the settings row that opens the weights dialog.
pub const WEIGHTS_INDEX: usize = 2;

/// Index of the settings row that opens the seed dialog.
pub const SEED_INDEX: usize = 3;

/// A key press, as far as the settings panel tells keys apart.
#[derive(Clone, Copy, Debug, PartialEq, Eq, Structural)]
pub enum SettingsKey {
    Up,
    Down,
    Left,
    Right,
    Space,
    Other,
}

/// How the selected row of the settings table moves.
#[derive(Clone, Copy, Debug, PartialEq, Eq, Structural)]
pub enum RowMove {
    Previous,
    Next,
    Stay,
}

/// The settings that the settings panel edits, with its focus and dialogs.
#[derive(Clone, Copy, Debug, PartialEq, Eq, Structural)]
pub struct SettingsPanelState {
    pub selected: bool,
    pub width: usize,
    pub height: usize,
    pub weights_dialog_open: bool,
    pub seed_dialog_open: bool,
}

/// The panel that lists the playground's settings.
pub struct SettingsPanel;

impl SettingsPanel {
    /// Reacts to a key while `row` is the selected row: arrows up and down
    /// move the selection, left and right change the width or height by one
    /// (never below zero), and space opens the weights or seed dialog. Keys
    /// are ignored while the panel is not focused or a dialog is open.
    pub fn handle_key_input(key: SettingsKey, row: Option<usize>, state: &mut SettingsPanelState) -> (r: RowMove)
        ensures
            ({
                let s = *old(state);
                let idle = !s.selected || s.weights_dialog_open || s.seed_dialog_open;
                &&& idle ==> r == RowMove::Stay && *final(state) == s
                &&& !idle && key == SettingsKey::Up ==> r == RowMove::Previous && *final(state) == s
                &&& !idle && key == SettingsKey::Down ==> r == RowMove::Next && *final(state) == s
                &&& !idle && key != SettingsKey::Up && key != SettingsKey::Down ==> r == RowMove::Stay
                &&& !idle && key == SettingsKey::Right ==> *final(state) == (SettingsPanelState {
                    width: if row == Some(WIDTH_INDEX) && s.width < usize::MAX { (s.width + 1) as usize } else { s.width },
                    height: if row == Some(HEIGHT_INDEX) && s.height < usize::MAX { (s.height + 1) as usize } else { s.height },
                    ..s
                })
                &&& !idle && key == SettingsKey::Left ==> *final(state) == (SettingsPanelState {
                    width: if row == Some(WIDTH_INDEX) && s.width > 0 { (s.width - 1) as usize } else { s.width },
                    height: if row == Some(HEIGHT_INDEX) && s.height > 0 { (s.height - 1) as usize } else { s.height },
                    ..s
                })
                &&& !idle && key == SettingsKey::Space ==> *final(state) == (SettingsPanelState {
                    weights_dialog_open: row == Some(WEIGHTS_INDEX),
                    seed_dialog_open: row == Some(SEED_INDEX),
                    ..s
                })
                &&& !idle && key == SettingsKey::Other ==> *final(state) == s
            }),
    {
        if !state.selected || state.weights_dialog_open || state.seed_dialog_open {
            return RowMove::Stay;
        }
        match key {
            SettingsKey::Up => RowMove::Previous,
            SettingsKey::Down => RowMove::Next,
            SettingsKey::Right => {
                match row {
                    Some(WIDTH_INDEX) => {
                        state.width = state.width.saturating_add(1);
                    },
                    Some(HEIGHT_INDEX) => {
                        state.height = state.height.saturating_add(1);
                    },
                    _ => {},
                }
                RowMove::Stay
            },
            SettingsKey::Left => {
                match row {
                    Some(WIDTH_INDEX) => {
                        state.width = state.width.saturating_sub(1);
                    },
                    Some(HEIGHT_INDEX) => {
                        state.height = state.height.saturating_sub(1);
                    },
                    _ => {},
                }
                RowMove::Stay
            },
            SettingsKey::Space => {
                match row {
                    Some(WEIGHTS_INDEX) => {
                        state.weights_dialog_open = true;
                    },
                    Some(SEED_INDEX) => {
                        state.seed_dialog_open = true;
                    },
                    _ => {},
                }
                RowMove::Stay
            },
            SettingsKey::Other => RowMove::Stay,
        }
    }
}

/// The panel that draws the result of a collapse.
pub struct ResultPanel;

impl ResultPanel {
    /// The tile of the first entry of `collapsed` at position `(x, y)`.
    pub fn tile_at<T: Copy>(collapsed: &[(Position, T)], x: isize, y: isize) -> (r: Option<T>)
        ensures
            r is None <==> forall|k: int| 0 <= k < collapsed@.len() ==> #[trigger] collapsed@[k].0 != (Position { x, y }),
            r matches Some(t) ==> exists|k: int|
                0 <= k < collapsed@.len() && #[trigger] collapsed@[k] == ((Position { x, y }), t)
                    && forall|m: int| 0 <= m < k ==> #[trigger] collapsed@[m].0 != (Position { x, y }),
    {
        let mut k: usize = 0;
        while k < collapsed.len()
            invariant
                k <= collapsed@.len(),
                forall|m: int| 0 <= m < k ==> #[trigger] collapsed@[m].0 != (Position { x, y }),
            decreases collapsed@.len() - k,
        {
            let p = collapsed[k].0;
            if p.x == x && p.y == y {
                return Some(collapsed[k].1);
            }
            k += 1;
        }
        None
    }
}

} // verus!
