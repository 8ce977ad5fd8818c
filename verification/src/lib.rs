//! Carries one diagnostic message across a warm reset.
//!
//! A failure handler writes the message into a reserved span of memory that
//! start-up code leaves alone; after the restart the application takes the
//! message out again, once. The span is handed to this library as a byte
//! slice, the region. Its first two machine words are a header, a sentinel
//! followed by the length of the message, and the rest holds the message
//! itself. Header words lie in the region as the machine lays out a `usize`.
//!
//! ```ignore
//! // in the failure handler, before the reset
//! report_panic_info(region, "allocation failed");
//!
//! // early in the next run
//! if let Some(text) = get_panic_message_utf8(region) {
//!     uart.write(text);
//! }
//! ```
//!
//! Writing never fails: a message that is too long is cut off where the
//! region ends. Reading never fails either: a region without the sentinel,
//! or with a length that cannot be, gives no message.
//!
//! The modules: [`word`] lays out one header word, [`region`] the header and
//! the payload area, [`writer`] and [`reader`] are the two sides, [`text`]
//! finds the text in bytes that may end inside a character, and [`laws`]
//! states what holds of the two sides together.
pub mod laws;
pub mod reader;
pub mod region;
pub mod text;
pub mod word;
pub mod writer;

pub use reader::{get_panic_message_bytes, get_panic_message_utf8};
pub use region::MAGIC;
pub use writer::{report_panic_info, Ram};
