use vstd::prelude::*;

verus! {

/// The bracket that delimits a group of tokens.
#[derive(Clone, Copy, Debug, PartialEq, Eq, Structural)]
pub enum Delimiter {
    /// `( ... )`
    Parenthesis,
    /// `{ ... }`
    Brace,
    /// `[ ... ]`
    Bracket,
    /// A group with no visible delimiters.
    Invisible,
}

/// Whether a punctuation character is joined to the one that follows it
/// (as the `-` of `->`) or stands alone.
#[derive(Clone, Copy, Debug, PartialEq, Eq, Structural)]
pub enum Spacing {
    Alone,
    Joint,
}

/// One lexical unit of a token stream.
#[derive(Debug, PartialEq, Eq)]
pub enum Token {
    /// An identifier or keyword, by its text.
    Ident(String),
    /// A single punctuation character.
    Punct(char, Spacing),
    /// A literal, by its source text.
    Literal(String),
    /// A delimited group and the tokens inside it.
    Group(Delimiter, Vec<Token>),
}

/// The mathematical value of a [`Token`].
pub enum TokenView {
    Ident(Seq<char>),
    Punct(char, Spacing),
    Literal(Seq<char>),
    Group(Delimiter, Seq<TokenView>),
}

impl Token {
    pub open spec fn view(&self) -> TokenView
        decreases self,
    {
        match self {
            Token::Ident(s) => TokenView::Ident(s@),
            Token::Punct(c, sp) => TokenView::Punct(*c, *sp),
            Token::Literal(s) => TokenView::Literal(s@),
            Token::Group(d, items) => TokenView::Group(
                *d,
                Seq::new(
                    items.len() as nat,
                    |i: int|
                        if 0 <= i < items.len() {
                            items[i].view()
                        } else {
                            TokenView::Ident(Seq::empty())
                        },
                ),
            ),
        }
    }
}

} // verus!
