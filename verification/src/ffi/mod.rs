//! Text types for exchange with code that wants other encodings than UTF-8.

pub mod c_str;
pub mod wstring;
