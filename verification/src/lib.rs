//! A chord-based keyboard remapper core: it tracks the set of held keys,
//! matches configured key chords against that set, and plans the synthetic
//! key sequences that replace a chord with a Unicode character.
//!
//! The host operating system's hook installation, message loop and input
//! injection live outside this crate; the crate receives key events and
//! per-event translation data as plain values and returns decisions and
//! planned key-stroke batches.
pub mod channel;
pub mod hook;
pub mod hotkeymanager;
pub mod keybindings;
pub mod keymanager;
pub mod keys;
pub mod laws;
pub mod pressed;
pub mod synth;
pub mod translate;
pub mod util;

pub use keys::is_meta_or_alt;
pub use keys::Key;
pub use keys::KeyBinding;
pub use keys::KeyBindings;
pub use keys::BindingChar;
pub use keys::HasCharacter;
pub use keys::HasShift;
pub use keys::HasVirtualKey;
pub use keys::VIRTUAL_KEY;
