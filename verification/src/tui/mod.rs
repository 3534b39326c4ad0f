pub mod keybinds;
pub mod ui;
