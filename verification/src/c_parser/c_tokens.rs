//! The lexical token model: one tagged value per lexical unit.

use vstd::prelude::*;

verus! {

/// The literal text carried by an identifier token.
#[derive(Debug)]
pub struct Identifier {
    pub value: String,
}

/// One lexical unit: punctuation, a reserved word, or an identifier
/// carrying its literal text.
#[derive(Debug)]
pub enum Token {
    LBRACE,
    RBRACE,
    SEMICOLON,
    STAR,
    INT,
    LONG,
    STRUCT,
    TYPEDEF,
    CLASS,
    IDENTIFIER(Identifier),
}

/// The mathematical shape of a token: as `Token`, but with the identifier
/// text abstracted to a sequence of characters.
pub enum TokenV {
    LBrace,
    RBrace,
    Semicolon,
    Star,
    Int,
    Long,
    Struct,
    Typedef,
    Class,
    Ident(Seq<char>),
}

impl View for Token {
    type V = TokenV;

    open spec fn view(&self) -> TokenV {
        match self {
            Token::LBRACE => TokenV::LBrace,
            Token::RBRACE => TokenV::RBrace,
            Token::SEMICOLON => TokenV::Semicolon,
            Token::STAR => TokenV::Star,
            Token::INT => TokenV::Int,
            Token::LONG => TokenV::Long,
            Token::STRUCT => TokenV::Struct,
            Token::TYPEDEF => TokenV::Typedef,
            Token::CLASS => TokenV::Class,
            Token::IDENTIFIER(id) => TokenV::Ident(id.value@),
        }
    }
}

/// The source text a token stands for: the punctuation mark, the reserved
/// word, or the identifier's own text.
pub open spec fn spec_token_value(t: TokenV) -> Seq<char> {
    match t {
        TokenV::LBrace => "{"@,
        TokenV::RBrace => "}"@,
        TokenV::Semicolon => ";"@,
        TokenV::Star => "*"@,
        TokenV::Int => "int"@,
        TokenV::Long => "long"@,
        TokenV::Struct => "struct"@,
        TokenV::Typedef => "typedef"@,
        TokenV::Class => "class"@,
        TokenV::Ident(v) => v,
    }
}

/// Returns the source text of a token.
pub fn token_value(tok: Token) -> (r: String)
    ensures
        r@ == spec_token_value(tok@),
{
    match tok {
        Token::LBRACE => String::from_str("{"),
        Token::RBRACE => String::from_str("}"),
        Token::SEMICOLON => String::from_str(";"),
        Token::STAR => String::from_str("*"),
        Token::INT => String::from_str("int"),
        Token::LONG => String::from_str("long"),
        Token::STRUCT => String::from_str("struct"),
        Token::TYPEDEF => String::from_str("typedef"),
        Token::CLASS => String::from_str("class"),
        Token::IDENTIFIER(id) => id.value,
    }
}

} // verus!
