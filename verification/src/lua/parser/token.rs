use vstd::prelude::*;

verus! {

/// The kinds of lexemes of a manifest.
#[derive(Clone, Copy, PartialEq, Eq, Structural, Debug, Hash, PartialOrd, Ord)]
pub enum Token {
    Newline,
    Whitespace,
    LiteralString,
    Identifier,
    Symbols,
    End,
    Function,
    Local,
    Until,
    Block,
    BuiltIn,
    Export,
    Task,
    Watch,
    Mute,
    Comment,
    Error,
}

/// Number of token kinds.
pub const TOKEN_KINDS: usize = 17;

/// The position of a kind in the declaration order, which is also its
/// numeric representation.
pub open spec fn token_index(t: Token) -> nat {
    match t {
        Token::Newline => 0,
        Token::Whitespace => 1,
        Token::LiteralString => 2,
        Token::Identifier => 3,
        Token::Symbols => 4,
        Token::End => 5,
        Token::Function => 6,
        Token::Local => 7,
        Token::Until => 8,
        Token::Block => 9,
        Token::BuiltIn => 10,
        Token::Export => 11,
        Token::Task => 12,
        Token::Watch => 13,
        Token::Mute => 14,
        Token::Comment => 15,
        Token::Error => 16,
    }
}

/// The kind at a position of the declaration order.
pub open spec fn token_at(i: nat) -> Option<Token> {
    if i == 0 { Some(Token::Newline) }
    else if i == 1 { Some(Token::Whitespace) }
    else if i == 2 { Some(Token::LiteralString) }
    else if i == 3 { Some(Token::Identifier) }
    else if i == 4 { Some(Token::Symbols) }
    else if i == 5 { Some(Token::End) }
    else if i == 6 { Some(Token::Function) }
    else if i == 7 { Some(Token::Local) }
    else if i == 8 { Some(Token::Until) }
    else if i == 9 { Some(Token::Block) }
    else if i == 10 { Some(Token::BuiltIn) }
    else if i == 11 { Some(Token::Export) }
    else if i == 12 { Some(Token::Task) }
    else if i == 13 { Some(Token::Watch) }
    else if i == 14 { Some(Token::Mute) }
    else if i == 15 { Some(Token::Comment) }
    else if i == 16 { Some(Token::Error) }
    else { None }
}

/// The display name of each kind.
pub open spec fn token_name(t: Token) -> Seq<char> {
    match t {
        Token::Newline => "newline"@,
        Token::LiteralString => "literal_string"@,
        Token::Whitespace => "whitespace"@,
        Token::Identifier => "identifier"@,
        Token::Symbols => "symbols"@,
        Token::End => "end"@,
        Token::Function => "function"@,
        Token::Local => "local"@,
        Token::Until => "until"@,
        Token::Block => "block"@,
        Token::BuiltIn => "built-in"@,
        Token::Export => "export"@,
        Token::Task => "task"@,
        Token::Watch => "watch"@,
        Token::Mute => "@"@,
        Token::Comment => "comment"@,
        Token::Error => "Syntax error"@,
    }
}

impl Token {
    /// The display name of the kind ("newline", "identifier", ...).
    pub fn name(&self) -> (r: String)
        ensures
            r@ == token_name(*self),
    {
        let s = match self {
            Token::Newline => "newline",
            Token::LiteralString => "literal_string",
            Token::Whitespace => "whitespace",
            Token::Identifier => "identifier",
            Token::Symbols => "symbols",
            Token::End => "end",
            Token::Function => "function",
            Token::Local => "local",
            Token::Until => "until",
            Token::Block => "block",
            Token::BuiltIn => "built-in",
            Token::Export => "export",
            Token::Task => "task",
            Token::Watch => "watch",
            Token::Mute => "@",
            Token::Comment => "comment",
            Token::Error => "Syntax error",
        };
        s.to_owned()
    }

    /// The numeric representation of the kind: its position in the
    /// declaration order.
    pub fn to_u16(self) -> (r: u16)
        ensures
            r as nat == token_index(self),
    {
        match self {
            Token::Newline => 0,
            Token::Whitespace => 1,
            Token::LiteralString => 2,
            Token::Identifier => 3,
            Token::Symbols => 4,
            Token::End => 5,
            Token::Function => 6,
            Token::Local => 7,
            Token::Until => 8,
            Token::Block => 9,
            Token::BuiltIn => 10,
            Token::Export => 11,
            Token::Task => 12,
            Token::Watch => 13,
            Token::Mute => 14,
            Token::Comment => 15,
            Token::Error => 16,
        }
    }

    /// The kind whose numeric representation is `n`, if there is one.
    pub fn from_u16(n: u16) -> (r: Option<Token>)
        ensures
            r == token_at(n as nat),
    {
        if n == 0 { Some(Token::Newline) }
        else if n == 1 { Some(Token::Whitespace) }
        else if n == 2 { Some(Token::LiteralString) }
        else if n == 3 { Some(Token::Identifier) }
        else if n == 4 { Some(Token::Symbols) }
        else if n == 5 { Some(Token::End) }
        else if n == 6 { Some(Token::Function) }
        else if n == 7 { Some(Token::Local) }
        else if n == 8 { Some(Token::Until) }
        else if n == 9 { Some(Token::Block) }
        else if n == 10 { Some(Token::BuiltIn) }
        else if n == 11 { Some(Token::Export) }
        else if n == 12 { Some(Token::Task) }
        else if n == 13 { Some(Token::Watch) }
        else if n == 14 { Some(Token::Mute) }
        else if n == 15 { Some(Token::Comment) }
        else if n == 16 { Some(Token::Error) }
        else { None }
    }

    /// Every kind, in declaration order.
    pub fn all() -> (r: Vec<Token>)
        ensures
            r@.len() == TOKEN_KINDS,
            forall|i: int| 0 <= i < r@.len() ==> Some(#[trigger] r@[i]) == token_at(i as nat),
    {
        let mut v: Vec<Token> = Vec::new();
        let mut i: u16 = 0;
        while i < 17
            invariant
                i <= 17,
                v@.len() == i,
                forall|j: int| 0 <= j < v@.len() ==> Some(#[trigger] v@[j]) == token_at(j as nat),
            decreases 17 - i,
        {
            match Token::from_u16(i) {
                Some(t) => v.push(t),
                None => {},
            }
            i = i + 1;
        }
        v
    }

    /// The display names of every kind, in declaration order.
    pub fn list() -> (r: Vec<String>)
        ensures
            r@.len() == TOKEN_KINDS,
            forall|i: int| 0 <= i < r@.len() ==> (#[trigger] r@[i])@ == token_name_at(i as nat),
    {
        let all = Token::all();
        let mut tokens: Vec<String> = Vec::new();
        let mut i: usize = 0;
        while i < all.len()
            invariant
                all@.len() == TOKEN_KINDS,
                forall|j: int| 0 <= j < all@.len() ==> Some(#[trigger] all@[j]) == token_at(j as nat),
                i <= all@.len(),
                tokens@.len() == i,
                forall|j: int| 0 <= j < tokens@.len() ==> token_name_at(j as nat) == (#[trigger] tokens@[j])@,
            decreases all@.len() - i,
        {
            let n = all[i].name();
            assert(Some(all@[i as int]) == token_at(i as nat));
            tokens.push(n);
            i = i + 1;
        }
        tokens
    }
}

/// The display name of the kind at a position of the declaration order.
pub open spec fn token_name_at(i: nat) -> Seq<char> {
    match token_at(i) {
        Some(t) => token_name(t),
        None => Seq::empty(),
    }
}

/// The numeric representation of a kind gives the kind back, and every
/// kind has a representation below the number of kinds.
pub proof fn law_token_code_roundtrip(t: Token)
    ensures
        token_at(token_index(t)) == Some(t),
        token_index(t) < TOKEN_KINDS,
{
}

} // verus!
