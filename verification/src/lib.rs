//! Containers of fixed capacity.
//!
//! - [`vec`]: a sequence of at most `N` values.
//! - [`string`]: text of at most `N` bytes of UTF-8.
//! - [`ffi::wstring`]: text of at most `N` units of UTF-16.
//! - [`ffi::c_str`]: text in a buffer of `N` bytes that a zero byte ends.
//! - [`bitmap`]: a view of `N` bits over words that the caller owns.
//!
//! No operation grows a container beyond its capacity, and none cuts its
//! input to make it fit unless it says so: what does not fit is refused with
//! an error and changes nothing.

pub mod bitmap;
pub mod encoding;
pub mod ffi;
pub mod nul;
pub mod string;
pub mod vec;
