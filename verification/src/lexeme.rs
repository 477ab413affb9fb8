//! The token model: lexical units, delimiters, operators, keywords and
//! string-prefix flags, together with their classification predicates.
//!
//! Identifier, Keyword, Str, Bytes and Delimiter tokens carry the offset of
//! their first source character (an index into the character sequence that
//! the lexer was given). Str and Bytes carry decoded content, with escapes
//! already resolved; Float carries the literal text of the number.

use vstd::prelude::*;
use crate::chars::chars_eq_str;

verus! {

#[derive(Clone, Debug, PartialEq)]
pub enum Lexeme {
    Bytes(usize, Vec<u8>),
    Dedent,
    Delimiter(usize, Delimiter),
    Float(Vec<char>),
    Identifier(usize, Vec<char>),
    Indent,
    Integer(i64),
    Keyword(usize, Keyword),
    Newline,
    Operator(Operator),
    Str(usize, Vec<char>),
}

/// The mathematical view of a token: vectors of characters and bytes give
/// way to sequences, everything else carries over unchanged.
pub enum LexemeView {
    Bytes(usize, Seq<u8>),
    Dedent,
    Delimiter(usize, Delimiter),
    Float(Seq<char>),
    Identifier(usize, Seq<char>),
    Indent,
    Integer(i64),
    Keyword(usize, Keyword),
    Newline,
    Operator(Operator),
    Str(usize, Seq<char>),
}

impl View for Lexeme {
    type V = LexemeView;

    open spec fn view(&self) -> LexemeView {
        match self {
            Lexeme::Bytes(i, b) => LexemeView::Bytes(*i, b@),
            Lexeme::Dedent => LexemeView::Dedent,
            Lexeme::Delimiter(i, d) => LexemeView::Delimiter(*i, *d),
            Lexeme::Float(t) => LexemeView::Float(t@),
            Lexeme::Identifier(i, w) => LexemeView::Identifier(*i, w@),
            Lexeme::Indent => LexemeView::Indent,
            Lexeme::Integer(v) => LexemeView::Integer(*v),
            Lexeme::Keyword(i, k) => LexemeView::Keyword(*i, *k),
            Lexeme::Newline => LexemeView::Newline,
            Lexeme::Operator(o) => LexemeView::Operator(*o),
            Lexeme::Str(i, t) => LexemeView::Str(*i, t@),
        }
    }
}

impl Lexeme {
    /// Whether this token is one of the three unary operator spellings.
    pub open spec fn unary_spec(&self) -> bool {
        match *self {
            Lexeme::Operator(Operator::UnaryAdd)
            | Lexeme::Operator(Operator::UnarySub)
            | Lexeme::Operator(Operator::UnaryNot) => true,
            _ => false,
        }
    }

    pub fn is_unary(&self) -> (r: bool)
        ensures
            r == self.unary_spec(),
    {
        match *self {
            Lexeme::Operator(Operator::UnaryAdd)
            | Lexeme::Operator(Operator::UnarySub)
            | Lexeme::Operator(Operator::UnaryNot) => true,
            _ => false,
        }
    }
}

#[derive(Clone, Copy, Debug, PartialEq, Eq, Structural)]
pub enum Delimiter {
    DictClose,
    DictOpen,
    ListClose,
    ListOpen,
    ParenClose,
    ParenOpen,
}

impl Delimiter {
    /// The delimiter denoted by a bracket character, if any.
    pub open spec fn of_char(ch: char) -> Option<Delimiter> {
        if ch == '{' {
            Some(Delimiter::DictOpen)
        } else if ch == '}' {
            Some(Delimiter::DictClose)
        } else if ch == '[' {
            Some(Delimiter::ListOpen)
        } else if ch == ']' {
            Some(Delimiter::ListClose)
        } else if ch == '(' {
            Some(Delimiter::ParenOpen)
        } else if ch == ')' {
            Some(Delimiter::ParenClose)
        } else {
            None
        }
    }

    pub fn is_delimiter(ch: char) -> (r: Option<Self>)
        ensures
            r == Self::of_char(ch),
    {
        if ch == '{' {
            Some(Delimiter::DictOpen)
        } else if ch == '}' {
            Some(Delimiter::DictClose)
        } else if ch == '[' {
            Some(Delimiter::ListOpen)
        } else if ch == ']' {
            Some(Delimiter::ListClose)
        } else if ch == '(' {
            Some(Delimiter::ParenOpen)
        } else if ch == ')' {
            Some(Delimiter::ParenClose)
        } else {
            None
        }
    }

    pub open spec fn opening_spec(&self) -> bool {
        match *self {
            Delimiter::DictOpen | Delimiter::ListOpen | Delimiter::ParenOpen => true,
            _ => false,
        }
    }

    pub fn is_opening(&self) -> (r: bool)
        ensures
            r == self.opening_spec(),
    {
        match *self {
            Delimiter::DictOpen | Delimiter::ListOpen | Delimiter::ParenOpen => true,
            _ => false,
        }
    }

    pub fn is_closing(&self) -> (r: bool)
        ensures
            r == !self.opening_spec(),
    {
        !self.is_opening()
    }

    /// The other half of the same bracket family: open maps to close and
    /// close to open.
    pub open spec fn partner(&self) -> Delimiter {
        match *self {
            Delimiter::DictClose => Delimiter::DictOpen,
            Delimiter::ListClose => Delimiter::ListOpen,
            Delimiter::ParenClose => Delimiter::ParenOpen,
            Delimiter::DictOpen => Delimiter::DictClose,
            Delimiter::ListOpen => Delimiter::ListClose,
            Delimiter::ParenOpen => Delimiter::ParenClose,
        }
    }

    pub fn is_matching(&self, delimiter: Self) -> (r: bool)
        ensures
            r == (delimiter == self.partner()),
    {
        delimiter == match *self {
            Delimiter::DictClose => Delimiter::DictOpen,
            Delimiter::ListClose => Delimiter::ListOpen,
            Delimiter::ParenClose => Delimiter::ParenOpen,
            Delimiter::DictOpen => Delimiter::DictClose,
            Delimiter::ListOpen => Delimiter::ListClose,
            Delimiter::ParenOpen => Delimiter::ParenClose,
        }
    }
}

#[derive(Clone, Copy, Debug, PartialEq, Eq, Structural)]
pub enum Operator {
    Access,
    Add,
    AddAssign,
    And,
    AndAssign,
    Colon,
    Assign,
    Dec,
    DecAssign,
    Div,
    DivAssign,
    Equals,
    FuncAnno,
    LessThan,
    LessThanEqual,
    MoreThan,
    MoreThanEqual,
    Mul,
    MulAssign,
    Not,
    NotEquals,
    Or,
    OrAssign,
    Pow,
    PowAssign,
    Rem,
    RemAssign,
    FloorDiv,
    FloorDivAssign,
    Sep,
    Shl,
    ShlAssign,
    Shr,
    ShrAssign,
    Sub,
    SubAssign,
    Term,
    UnaryAdd,
    UnarySub,
    UnaryNot,
    Xor,
    XorAssign,
}

impl Operator {
    /// Whether a character can appear in an operator spelling.
    pub open spec fn term_spec(ch: char) -> bool {
        ch == '+' || ch == '=' || ch == '&' || ch == '@' || ch == '/' || ch == '<' || ch == '>'
            || ch == '*' || ch == '~' || ch == '!' || ch == '|' || ch == '%' || ch == '^'
            || ch == '-' || ch == ',' || ch == ':' || ch == ';' || ch == '.'
    }

    pub fn is_operator_term(ch: char) -> (r: bool)
        ensures
            r == Self::term_spec(ch),
    {
        ch == '+' || ch == '=' || ch == '&' || ch == '@' || ch == '/' || ch == '<' || ch == '>'
            || ch == '*' || ch == '~' || ch == '!' || ch == '|' || ch == '%' || ch == '^'
            || ch == '-' || ch == ',' || ch == ':' || ch == ';' || ch == '.'
    }

    /// The operator denoted by a one-character spelling, if any.
    pub open spec fn of_char1(a: char) -> Option<Operator> {
        if a == '.' {
            Some(Operator::Access)
        } else if a == '+' {
            Some(Operator::Add)
        } else if a == '&' {
            Some(Operator::And)
        } else if a == ':' {
            Some(Operator::Colon)
        } else if a == '=' {
            Some(Operator::Assign)
        } else if a == '@' {
            Some(Operator::Dec)
        } else if a == ',' {
            Some(Operator::Sep)
        } else if a == '/' {
            Some(Operator::Div)
        } else if a == '<' {
            Some(Operator::LessThan)
        } else if a == '>' {
            Some(Operator::MoreThan)
        } else if a == '*' {
            Some(Operator::Mul)
        } else if a == '~' {
            Some(Operator::Not)
        } else if a == '|' {
            Some(Operator::Or)
        } else if a == '%' {
            Some(Operator::Rem)
        } else if a == '-' {
            Some(Operator::Sub)
        } else if a == ';' {
            Some(Operator::Term)
        } else if a == '^' {
            Some(Operator::Xor)
        } else {
            None
        }
    }

    /// The operator denoted by a two-character spelling, if any.
    pub open spec fn of_char2(a: char, b: char) -> Option<Operator> {
        if a == '+' && b == '=' {
            Some(Operator::AddAssign)
        } else if a == '&' && b == '=' {
            Some(Operator::AndAssign)
        } else if a == '@' && b == '=' {
            Some(Operator::DecAssign)
        } else if a == '/' && b == '=' {
            Some(Operator::DivAssign)
        } else if a == '=' && b == '=' {
            Some(Operator::Equals)
        } else if a == '-' && b == '>' {
            Some(Operator::FuncAnno)
        } else if a == '<' && b == '=' {
            Some(Operator::LessThanEqual)
        } else if a == '>' && b == '=' {
            Some(Operator::MoreThanEqual)
        } else if a == '*' && b == '=' {
            Some(Operator::MulAssign)
        } else if a == '!' && b == '=' {
            Some(Operator::NotEquals)
        } else if a == '|' && b == '=' {
            Some(Operator::OrAssign)
        } else if a == '*' && b == '*' {
            Some(Operator::Pow)
        } else if a == '%' && b == '=' {
            Some(Operator::RemAssign)
        } else if a == '/' && b == '/' {
            Some(Operator::FloorDiv)
        } else if a == '<' && b == '<' {
            Some(Operator::Shl)
        } else if a == '>' && b == '>' {
            Some(Operator::Shr)
        } else if a == '-' && b == '=' {
            Some(Operator::SubAssign)
        } else if a == '^' && b == '=' {
            Some(Operator::XorAssign)
        } else {
            None
        }
    }

    /// The operator denoted by a three-character spelling, if any.
    pub open spec fn of_char3(a: char, b: char, c: char) -> Option<Operator> {
        if a == '*' && b == '*' && c == '=' {
            Some(Operator::PowAssign)
        } else if a == '/' && b == '/' && c == '=' {
            Some(Operator::FloorDivAssign)
        } else if a == '<' && b == '<' && c == '=' {
            Some(Operator::ShlAssign)
        } else if a == '>' && b == '>' && c == '=' {
            Some(Operator::ShrAssign)
        } else {
            None
        }
    }

    /// The operator denoted by a spelling of one to three characters.
    pub open spec fn of_chars(s: Seq<char>) -> Option<Operator> {
        if s.len() == 1 {
            Self::of_char1(s[0])
        } else if s.len() == 2 {
            Self::of_char2(s[0], s[1])
        } else if s.len() == 3 {
            Self::of_char3(s[0], s[1], s[2])
        } else {
            None
        }
    }

    pub fn is_operator(word: &[char]) -> (r: Option<Self>)
        ensures
            r == Self::of_chars(word@),
    {
        if word.len() == 1 {
            let a = word[0];
            if a == '.' {
                Some(Operator::Access)
            } else if a == '+' {
                Some(Operator::Add)
            } else if a == '&' {
                Some(Operator::And)
            } else if a == ':' {
                Some(Operator::Colon)
            } else if a == '=' {
                Some(Operator::Assign)
            } else if a == '@' {
                Some(Operator::Dec)
            } else if a == ',' {
                Some(Operator::Sep)
            } else if a == '/' {
                Some(Operator::Div)
            } else if a == '<' {
                Some(Operator::LessThan)
            } else if a == '>' {
                Some(Operator::MoreThan)
            } else if a == '*' {
                Some(Operator::Mul)
            } else if a == '~' {
                Some(Operator::Not)
            } else if a == '|' {
                Some(Operator::Or)
            } else if a == '%' {
                Some(Operator::Rem)
            } else if a == '-' {
                Some(Operator::Sub)
            } else if a == ';' {
                Some(Operator::Term)
            } else if a == '^' {
                Some(Operator::Xor)
            } else {
                None
            }
        } else if word.len() == 2 {
            let a = word[0];
            let b = word[1];
            if a == '+' && b == '=' {
                Some(Operator::AddAssign)
            } else if a == '&' && b == '=' {
                Some(Operator::AndAssign)
            } else if a == '@' && b == '=' {
                Some(Operator::DecAssign)
            } else if a == '/' && b == '=' {
                Some(Operator::DivAssign)
            } else if a == '=' && b == '=' {
                Some(Operator::Equals)
            } else if a == '-' && b == '>' {
                Some(Operator::FuncAnno)
            } else if a == '<' && b == '=' {
                Some(Operator::LessThanEqual)
            } else if a == '>' && b == '=' {
                Some(Operator::MoreThanEqual)
            } else if a == '*' && b == '=' {
                Some(Operator::MulAssign)
            } else if a == '!' && b == '=' {
                Some(Operator::NotEquals)
            } else if a == '|' && b == '=' {
                Some(Operator::OrAssign)
            } else if a == '*' && b == '*' {
                Some(Operator::Pow)
            } else if a == '%' && b == '=' {
                Some(Operator::RemAssign)
            } else if a == '/' && b == '/' {
                Some(Operator::FloorDiv)
            } else if a == '<' && b == '<' {
                Some(Operator::Shl)
            } else if a == '>' && b == '>' {
                Some(Operator::Shr)
            } else if a == '-' && b == '=' {
                Some(Operator::SubAssign)
            } else if a == '^' && b == '=' {
                Some(Operator::XorAssign)
            } else {
                None
            }
        } else if word.len() == 3 {
            let a = word[0];
            let b = word[1];
            let c = word[2];
            if a == '*' && b == '*' && c == '=' {
                Some(Operator::PowAssign)
            } else if a == '/' && b == '/' && c == '=' {
                Some(Operator::FloorDivAssign)
            } else if a == '<' && b == '<' && c == '=' {
                Some(Operator::ShlAssign)
            } else if a == '>' && b == '>' && c == '=' {
                Some(Operator::ShrAssign)
            } else {
                None
            }
        } else {
            None
        }
    }

    /// Whether this operator is an infix comparison operator.
    pub open spec fn comp_op_spec(&self) -> bool {
        match *self {
            Operator::LessThan
            | Operator::LessThanEqual
            | Operator::MoreThan
            | Operator::MoreThanEqual
            | Operator::Equals
            | Operator::NotEquals => true,
            _ => false,
        }
    }

    pub fn is_comp_op(&self) -> (r: bool)
        ensures
            r == self.comp_op_spec(),
    {
        match *self {
            Operator::LessThan
            | Operator::LessThanEqual
            | Operator::MoreThan
            | Operator::MoreThanEqual
            | Operator::Equals
            | Operator::NotEquals => true,
            _ => false,
        }
    }
}

#[derive(Clone, Copy, Debug, PartialEq, Eq, Structural)]
pub enum Prefix {
    Raw,
    Formatted,
    Bytes,
    Ignore,
}

impl Prefix {
    /// The pair of prefix flags denoted by a one- or two-letter string
    /// prefix, if the spelling is a recognised one.
    pub open spec fn of_chars(s: Seq<char>) -> Option<(Prefix, Prefix)> {
        if s.len() == 1 {
            Self::of_char1(s[0])
        } else if s.len() == 2 {
            Self::of_char2(s[0], s[1])
        } else {
            None
        }
    }

    pub open spec fn of_char1(a: char) -> Option<(Prefix, Prefix)> {
        if a == 'B' || a == 'b' {
            Some((Prefix::Bytes, Prefix::Ignore))
        } else if a == 'F' || a == 'f' {
            Some((Prefix::Formatted, Prefix::Ignore))
        } else if a == 'R' || a == 'r' {
            Some((Prefix::Raw, Prefix::Ignore))
        } else if a == 'U' || a == 'u' {
            Some((Prefix::Ignore, Prefix::Ignore))
        } else {
            None
        }
    }

    pub open spec fn of_char2(a: char, b: char) -> Option<(Prefix, Prefix)> {
        if (a == 'B' || a == 'b') && (b == 'R' || b == 'r') {
            Some((Prefix::Bytes, Prefix::Raw))
        } else if (a == 'F' || a == 'f') && (b == 'R' || b == 'r') {
            Some((Prefix::Formatted, Prefix::Raw))
        } else if (a == 'R' || a == 'r') && (b == 'B' || b == 'b') {
            Some((Prefix::Bytes, Prefix::Raw))
        } else if (a == 'R' || a == 'r') && (b == 'F' || b == 'f') {
            Some((Prefix::Formatted, Prefix::Raw))
        } else {
            None
        }
    }

    pub fn is_prefix(word: &[char]) -> (r: Option<(Self, Self)>)
        ensures
            r == Self::of_chars(word@),
    {
        if word.len() == 1 {
            let a = word[0];
            if a == 'B' || a == 'b' {
                Some((Prefix::Bytes, Prefix::Ignore))
            } else if a == 'F' || a == 'f' {
                Some((Prefix::Formatted, Prefix::Ignore))
            } else if a == 'R' || a == 'r' {
                Some((Prefix::Raw, Prefix::Ignore))
            } else if a == 'U' || a == 'u' {
                Some((Prefix::Ignore, Prefix::Ignore))
            } else {
                None
            }
        } else if word.len() == 2 {
            let a = word[0];
            let b = word[1];
            if (a == 'B' || a == 'b') && (b == 'R' || b == 'r') {
                Some((Prefix::Bytes, Prefix::Raw))
            } else if (a == 'F' || a == 'f') && (b == 'R' || b == 'r') {
                Some((Prefix::Formatted, Prefix::Raw))
            } else if (a == 'R' || a == 'r') && (b == 'B' || b == 'b') {
                Some((Prefix::Bytes, Prefix::Raw))
            } else if (a == 'R' || a == 'r') && (b == 'F' || b == 'f') {
                Some((Prefix::Formatted, Prefix::Raw))
            } else {
                None
            }
        } else {
            None
        }
    }
}

/// The reserved words, plus the two merged comparison keywords `IsNot` and
/// `NotIn`, which no source word maps to: the parser synthesises them from
/// the adjacent keyword pairs `is not` and `not in`.
#[derive(Clone, Copy, Debug, PartialEq, Eq, Structural)]
pub enum Keyword {
    And,
    As,
    Assert,
    Await,
    Break,
    Class,
    Continue,
    Def,
    Del,
    Elif,
    Else,
    Except,
    False,
    Finally,
    For,
    From,
    Global,
    If,
    Import,
    In,
    Is,
    IsNot,
    Lambda,
    NonLocal,
    NoneKw,
    Not,
    NotIn,
    Or,
    Pass,
    Raise,
    Return,
    True,
    Try,
    While,
    With,
    Yield,
}

impl Keyword {
    /// The keyword denoted by a reserved word, if the word is reserved.
    pub open spec fn of_chars(s: Seq<char>) -> Option<Keyword> {
        if s == "False"@ {
            Some(Keyword::False)
        } else if s == "None"@ {
            Some(Keyword::NoneKw)
        } else if s == "True"@ {
            Some(Keyword::True)
        } else if s == "and"@ {
            Some(Keyword::And)
        } else if s == "as"@ {
            Some(Keyword::As)
        } else if s == "assert"@ {
            Some(Keyword::Assert)
        } else if s == "await"@ {
            Some(Keyword::Await)
        } else if s == "break"@ {
            Some(Keyword::Break)
        } else if s == "class"@ {
            Some(Keyword::Class)
        } else if s == "continue"@ {
            Some(Keyword::Continue)
        } else if s == "def"@ {
            Some(Keyword::Def)
        } else if s == "del"@ {
            Some(Keyword::Del)
        } else if s == "elif"@ {
            Some(Keyword::Elif)
        } else if s == "else"@ {
            Some(Keyword::Else)
        } else if s == "except"@ {
            Some(Keyword::Except)
        } else if s == "finally"@ {
            Some(Keyword::Finally)
        } else if s == "for"@ {
            Some(Keyword::For)
        } else if s == "from"@ {
            Some(Keyword::From)
        } else if s == "global"@ {
            Some(Keyword::Global)
        } else if s == "if"@ {
            Some(Keyword::If)
        } else if s == "import"@ {
            Some(Keyword::Import)
        } else if s == "in"@ {
            Some(Keyword::In)
        } else if s == "is"@ {
            Some(Keyword::Is)
        } else if s == "lambda"@ {
            Some(Keyword::Lambda)
        } else if s == "nonlocal"@ {
            Some(Keyword::NonLocal)
        } else if s == "not"@ {
            Some(Keyword::Not)
        } else if s == "or"@ {
            Some(Keyword::Or)
        } else if s == "pass"@ {
            Some(Keyword::Pass)
        } else if s == "raise"@ {
            Some(Keyword::Raise)
        } else if s == "return"@ {
            Some(Keyword::Return)
        } else if s == "try"@ {
            Some(Keyword::Try)
        } else if s == "while"@ {
            Some(Keyword::While)
        } else if s == "with"@ {
            Some(Keyword::With)
        } else if s == "yield"@ {
            Some(Keyword::Yield)
        } else {
            None
        }
    }

    pub fn is_keyword(name: &[char]) -> (r: Option<Self>)
        ensures
            r == Self::of_chars(name@),
    {
        if chars_eq_str(name, "False") {
            Some(Keyword::False)
        } else if chars_eq_str(name, "None") {
            Some(Keyword::NoneKw)
        } else if chars_eq_str(name, "True") {
            Some(Keyword::True)
        } else if chars_eq_str(name, "and") {
            Some(Keyword::And)
        } else if chars_eq_str(name, "as") {
            Some(Keyword::As)
        } else if chars_eq_str(name, "assert") {
            Some(Keyword::Assert)
        } else if chars_eq_str(name, "await") {
            Some(Keyword::Await)
        } else if chars_eq_str(name, "break") {
            Some(Keyword::Break)
        } else if chars_eq_str(name, "class") {
            Some(Keyword::Class)
        } else if chars_eq_str(name, "continue") {
            Some(Keyword::Continue)
        } else if chars_eq_str(name, "def") {
            Some(Keyword::Def)
        } else if chars_eq_str(name, "del") {
            Some(Keyword::Del)
        } else if chars_eq_str(name, "elif") {
            Some(Keyword::Elif)
        } else if chars_eq_str(name, "else") {
            Some(Keyword::Else)
        } else if chars_eq_str(name, "except") {
            Some(Keyword::Except)
        } else if chars_eq_str(name, "finally") {
            Some(Keyword::Finally)
        } else if chars_eq_str(name, "for") {
            Some(Keyword::For)
        } else if chars_eq_str(name, "from") {
            Some(Keyword::From)
        } else if chars_eq_str(name, "global") {
            Some(Keyword::Global)
        } else if chars_eq_str(name, "if") {
            Some(Keyword::If)
        } else if chars_eq_str(name, "import") {
            Some(Keyword::Import)
        } else if chars_eq_str(name, "in") {
            Some(Keyword::In)
        } else if chars_eq_str(name, "is") {
            Some(Keyword::Is)
        } else if chars_eq_str(name, "lambda") {
            Some(Keyword::Lambda)
        } else if chars_eq_str(name, "nonlocal") {
            Some(Keyword::NonLocal)
        } else if chars_eq_str(name, "not") {
            Some(Keyword::Not)
        } else if chars_eq_str(name, "or") {
            Some(Keyword::Or)
        } else if chars_eq_str(name, "pass") {
            Some(Keyword::Pass)
        } else if chars_eq_str(name, "raise") {
            Some(Keyword::Raise)
        } else if chars_eq_str(name, "return") {
            Some(Keyword::Return)
        } else if chars_eq_str(name, "try") {
            Some(Keyword::Try)
        } else if chars_eq_str(name, "while") {
            Some(Keyword::While)
        } else if chars_eq_str(name, "with") {
            Some(Keyword::With)
        } else if chars_eq_str(name, "yield") {
            Some(Keyword::Yield)
        } else {
            None
        }
    }

    /// Whether this keyword can stand as an infix comparison keyword.
    pub open spec fn comp_keyword_spec(&self) -> bool {
        match *self {
            Keyword::And | Keyword::In | Keyword::Is | Keyword::Not | Keyword::Or => true,
            _ => false,
        }
    }

    pub fn is_comp_keyword(&self) -> (r: bool)
        ensures
            r == self.comp_keyword_spec(),
    {
        match *self {
            Keyword::And | Keyword::In | Keyword::Is | Keyword::Not | Keyword::Or => true,
            _ => false,
        }
    }
}

} // verus!
