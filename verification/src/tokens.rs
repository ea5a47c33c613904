//! The token model that the `with` item grammar reads.
//!
//! A token sequence is a `Vec<TokenTree>`. Delimited groups nest; groups
//! without delimiters do not occur in this model (a producer splices their
//! contents in place).

use vstd::prelude::*;

verus! {

/// The bracket kind of a delimited group.
#[derive(Clone, Copy, Debug, PartialEq, Eq, Structural)]
pub enum Delimiter {
    Parenthesis,
    Brace,
    Bracket,
}

/// One token, or a delimited group of tokens.
#[derive(Debug)]
pub enum TokenTree {
    /// A word, by its text (a raw identifier keeps its `r#`). `plain` says
    /// that the word may stand as an ordinary identifier, that is, that it is
    /// no reserved word. The grammar goes by the flag as it finds it.
    Ident { name: String, plain: bool },
    /// One punctuation character; `joint` when the next token is a
    /// punctuation character that follows it without space.
    Punct { ch: char, joint: bool },
    /// A literal. The grammar never looks inside one.
    Literal,
    /// A delimited group with its contents.
    Group { delimiter: Delimiter, stream: Vec<TokenTree> },
}

/// Whether one of the bytes opens a delimited group.
pub open spec fn has_open_delimiter(bytes: Seq<u8>) -> bool {
    exists|i: int| 0 <= i < bytes.len() && is_open_delimiter(#[trigger] bytes[i])
}

/// The bytes `(`, `[` and `{`.
pub open spec fn is_open_delimiter(byte: u8) -> bool {
    byte == 0x28 || byte == 0x5b || byte == 0x7b
}

/// Calls `syn::parse_str::<syn::Ident>` and reports whether it succeeded.
/// Nothing is claimed of the answer: which texts `syn` takes for an
/// identifier rests on the lexer at work in the process, and inside a macro
/// that is the compiler's. Texts that hold `(`, `[` or `{` are left out, so
/// that the token buffer which `syn` builds for the call stays shallow.
#[verifier::external_body]
fn parses_as_ident(text: &str) -> (ok: bool)
    requires
        !has_open_delimiter(vstd::utf8::encode_utf8(text@)),
{
    syn::parse_str::<syn::Ident>(text).is_ok()
}

fn opens_group(bytes: &[u8]) -> (found: bool)
    ensures
        found == has_open_delimiter(bytes@),
{
    let mut i: usize = 0;
    while i < bytes.len()
        invariant
            i <= bytes.len(),
            forall|k: int| 0 <= k < i ==> !is_open_delimiter(#[trigger] bytes@[k]),
        decreases bytes.len() - i,
    {
        let b: u8 = bytes[i];
        if b == 0x28 || b == 0x5b || b == 0x7b {
            return true;
        }
        i += 1;
    }
    false
}

impl TokenTree {
    /// The word token with the given text and the given answer to the
    /// question whether the word is plain.
    pub fn word(text: &str, plain: bool) -> (token: TokenTree)
        ensures
            token matches TokenTree::Ident { name, plain: flag } && name@ == text@ && flag
                == plain,
    {
        TokenTree::Ident { name: text.to_owned(), plain }
    }

    /// The word token with the given text. The word is plain where `syn`
    /// parses the text as an `Ident`; a text that opens a group is never
    /// plain, and `syn` is not asked about it.
    pub fn ident(text: &str) -> (token: TokenTree)
        ensures
            token matches TokenTree::Ident { name, plain } && name@ == text@ && (
            has_open_delimiter(vstd::utf8::encode_utf8(text@)) ==> !plain),
    {
        if opens_group(text.as_bytes()) {
            TokenTree::word(text, false)
        } else {
            TokenTree::word(text, parses_as_ident(text))
        }
    }

    /// The punctuation token `ch`.
    pub fn punct(ch: char, joint: bool) -> (token: TokenTree)
        ensures
            token == (TokenTree::Punct { ch, joint }),
    {
        TokenTree::Punct { ch, joint }
    }
}

} // verus!
