//! Parser for the `format!`-style template language: literal text with
//! `{{` / `}}` escapes, and `{selector:flags}` argument placeholders.
//!
//! Every function here works on the UTF-8 bytes of its input; byte offsets in
//! errors count from the start of the whole template. Literal runs in a parsed template
//! are maximal: no literal is empty, and no two literals are adjacent.

pub mod error;
pub mod flags;
pub mod format_str;
pub mod laws;
pub mod mid_str;
pub mod round_trip;
pub mod selector;
pub mod template;
pub mod text;

pub use error::{ParseError, ParseErrorKind};
pub use flags::{parse_formatting, FormattingFlags, FormattingMode};
pub use format_str::{parse_format_str, FmtArg, FmtStrComponent, FormatStr};
pub use mid_str::parse_mid_str;
pub use selector::{parse_ident, parse_index, parse_which_arg, Selector};
