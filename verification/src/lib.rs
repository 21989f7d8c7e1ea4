//! Escaping raw text so that it can be embedded in HTML, and unescaping
//! text from HTML to get the raw text back.
//!
//! Only the character-reference layer is handled: tags are neither added nor
//! removed.
//!
//! # Which `escape` function to use
//!
//! Text that goes into an attribute value takes [`escape_attribute()`], other
//! text takes [`escape_text()`]. For bytes in place of a string, the same
//! names end in `_bytes`.
//!
//! |                         | `&` | `<` | `>` | `"` | `'` |
//! |-------------------------|:---:|:---:|:---:|:---:|:---:|
//! | [`escape_text()`]       |  ✓  |  ✓  |  ✓  |     |     |
//! | [`escape_attribute()`]  |  ✓  |  ✓  |  ✓  |  ✓  |     |
//! | [`escape_all_quotes()`] |  ✓  |  ✓  |  ✓  |  ✓  |  ✓  |
//!
//! # Which `unescape` function to use
//!
//! [`unescape()`] is right for text outside of attribute values, and
//! [`unescape_attribute()`] for the value of an attribute. [`unescape_in()`]
//! does either, as its `context` says, and [`unescape_bytes_in()`] does the
//! same on bytes.
//!
//! # What is proved
//!
//! Every function states what it returns over the functions of
//! [`escape`] and [`unescape::model`], which say what escaping and
//! unescaping mean on sequences of bytes. [`laws`] holds what follows of
//! them: that unescaping undoes escaping, and that taking the longest name
//! gives what looking the candidate up gives. The registry of names comes
//! from the `entities` crate; what it holds is not known to the proofs.

pub mod bytes;
pub mod cursor;
pub mod escape;
pub mod laws;
pub mod search;
pub mod table;
pub mod text;
pub mod unescape;

pub use escape::{
    escape_all_quotes, escape_all_quotes_bytes, escape_attribute, escape_attribute_bytes,
    escape_text, escape_text_bytes,
};
pub use table::{BARE_ENTITY_MAX_LENGTH, ENTITY_MAX_LENGTH, ENTITY_MIN_LENGTH};
pub use unescape::{unescape, unescape_attribute, unescape_bytes_in, unescape_in, Context};
