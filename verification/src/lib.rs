//! Reading passwords without showing them on the terminal: the text
//! processing that turns the line a user typed into the password.

pub mod line;
pub mod terminal;
