//! Labels for the symbols of the editor's outline.
//!
//! The editor highlights a symbol by parsing a line of Haskell that holds its
//! name: a data declaration for a type or a constructor, a type signature
//! for a variable. Of that line it shows one range, and matches what the user
//! types against another. Ranges count bytes.

use vstd::prelude::*;
use vstd::string::*;

verus! {

/// The kinds of symbol that get a label, and all the others.
#[derive(Clone, Copy, Debug, PartialEq, Eq, Structural)]
pub enum SymbolShape {
    /// A type: shown as `data Name = A`.
    Struct,
    /// A data constructor: shown as `data A = Name`.
    Constructor,
    /// A variable: shown as `name :: T`.
    Variable,
    /// Any other kind: no label.
    Other,
}

/// A label: the line to parse, and two ranges of bytes in it, each from its
/// first field up to but not including its second.
#[derive(Debug)]
pub struct SymbolLabel {
    /// The line of Haskell to parse.
    pub code: String,
    /// The part of the line to show.
    pub display_range: (usize, usize),
    /// The part of the shown text to match the user's input against, counted
    /// from the beginning of the shown text.
    pub filter_range: (usize, usize),
}

/// The number of bytes of a text in UTF-8.
pub open spec fn byte_len(text: Seq<char>) -> nat {
    vstd::utf8::encode_utf8(text).len()
}

/// The line for a symbol of the given kind and name; no line for the kinds
/// without a label.
pub open spec fn label_code(kind: SymbolShape, name: Seq<char>) -> Option<Seq<char>> {
    match kind {
        SymbolShape::Struct => Some("data "@ + name + " = A"@),
        SymbolShape::Constructor => Some("data A = "@ + name),
        SymbolShape::Variable => Some(name + " :: T"@),
        SymbolShape::Other => None,
    }
}

/// The range to show: the keyword and the name of a type, the name alone of a
/// constructor or a variable. Before the name of a type stand the five bytes
/// of `data `, before that of a constructor the nine bytes of `data A = `.
pub open spec fn label_display_range(kind: SymbolShape, name: Seq<char>) -> (nat, nat) {
    match kind {
        SymbolShape::Struct => (0, 5 + byte_len(name)),
        SymbolShape::Constructor => (9, 9 + byte_len(name)),
        _ => (0, byte_len(name)),
    }
}

/// The range to match: the name, within the shown text.
pub open spec fn label_filter_range(kind: SymbolShape, name: Seq<char>) -> (nat, nat) {
    match kind {
        SymbolShape::Struct => (5, 5 + byte_len(name)),
        _ => (0, byte_len(name)),
    }
}

/// The label for a symbol of the given kind and name, if its kind has one.
///
/// The name must leave room for the nine bytes that the longest line puts
/// before it; no name that fits in memory is longer.
pub fn label_for_symbol(kind: SymbolShape, name: &str) -> (label: Option<SymbolLabel>)
    requires
        byte_len(name@) + 9 <= usize::MAX,
    ensures
        match label {
            Some(label) => {
                &&& label_code(kind, name@) == Some(label.code@)
                &&& label.display_range.0 == label_display_range(kind, name@).0
                &&& label.display_range.1 == label_display_range(kind, name@).1
                &&& label.filter_range.0 == label_filter_range(kind, name@).0
                &&& label.filter_range.1 == label_filter_range(kind, name@).1
            },
            None => kind == SymbolShape::Other,
        },
{
    let name_len = name.len();
    match kind {
        SymbolShape::Struct => {
            let data_decl = "data ";
            proof {
                reveal_strlit("data ");
                lemma_ascii_byte_len(data_decl@);
            }
            let code = String::from_str(data_decl).concat(name).concat(" = A");
            let display_range = (0, data_decl.len() + name_len);
            let filter_range = (data_decl.len(), display_range.1);
            Some(SymbolLabel { code, display_range, filter_range })
        },
        SymbolShape::Constructor => {
            let data_decl = "data A = ";
            proof {
                reveal_strlit("data A = ");
                lemma_ascii_byte_len(data_decl@);
            }
            let code = String::from_str(data_decl).concat(name);
            let display_range = (data_decl.len(), data_decl.len() + name_len);
            let filter_range = (0, name_len);
            Some(SymbolLabel { code, display_range, filter_range })
        },
        SymbolShape::Variable => {
            let code = String::from_str(name).concat(" :: T");
            let display_range = (0, name_len);
            let filter_range = (0, name_len);
            Some(SymbolLabel { code, display_range, filter_range })
        },
        SymbolShape::Other => None,
    }
}

/// A text of ASCII characters has as many bytes as characters.
proof fn lemma_ascii_byte_len(text: Seq<char>)
    requires
        vstd::utf8::is_ascii_chars(text),
    ensures
        byte_len(text) == text.len(),
{
    vstd::utf8::is_ascii_chars_encode_utf8(text);
}

} // verus!
