//! The lexer: turns the characters of a `Source` into tokens with byte spans.
//! Whitespace and comments (from `--` or `#` to the end of the line) are
//! skipped; an identifier is an ASCII letter or `_` followed by letters,
//! digits and `_`, and is a keyword when its text is one; a number is a digit followed by
//! digits and at most one `.`; a string is delimited by `"` and knows the
//! escapes `\n \r \t \\ \" \0`. Numbers keep their literal text;
//! messages show them as the value they stand for (see `number`).

use vstd::prelude::*;

use crate::error::LangError;
use crate::number::{number_debug, number_debug_chars};
use crate::source::{Source, SourceId, Span, decode};
use crate::strings::json_escape_meaning;
use crate::text::{
    byte_len, char_width, chars_eq, chars_of, copy_range, digit_char, ident_char, ident_start,
    is_ascii_digit, is_ident_char, is_ident_start, is_whitespace, is_ws, lemma_byte_len_prefix_le,
    lemma_byte_len_step, lemma_byte_len_strict, lit, push_char, push_str, string_of, decimal,
    decimal_chars, append_chars,
};

verus! {

#[derive(Debug, Clone, Copy, PartialEq, Eq, Structural)]
pub enum Symbol {
    LParen,
    RParen,
    LBrace,
    RBrace,
    LBracket,
    RBracket,
    Comma,
    Dot,
    Plus,
    Minus,
    Star,
    Slash,
    Percent,
    Eq,
    EqEq,
    Not,
    NotEq,
    Lt,
    Lte,
    Gt,
    Gte,
    AndAnd,
    OrOr,
    Pipe,
    PipeGt,
}

#[derive(Debug, Clone, Copy, PartialEq, Eq, Structural)]
pub enum Keyword {
    If,
    Then,
    Else,
    End,
    For,
    In,
    Do,
    While,
    Return,
    Break,
    Continue,
    Let,
    Fn,
    Try,
    Catch,
    As,
    Nil,
    True,
    False,
}

/// What a token is.
#[derive(Debug, Clone)]
pub enum TokenKind {
    Keyword(Keyword),
    Symbol(Symbol),
    /// A number literal, as written.
    Number(String),
    String(String),
    Identifier(String),
    EndOfFile,
}

/// The mathematical value of a `TokenKind`.
pub enum TokenView {
    Keyword(Keyword),
    Symbol(Symbol),
    Number(Seq<char>),
    Str(Seq<char>),
    Identifier(Seq<char>),
    EndOfFile,
}

impl View for TokenKind {
    type V = TokenView;

    open spec fn view(&self) -> TokenView {
        match self {
            TokenKind::Keyword(k) => TokenView::Keyword(*k),
            TokenKind::Symbol(s) => TokenView::Symbol(*s),
            TokenKind::Number(t) => TokenView::Number(t@),
            TokenKind::String(t) => TokenView::Str(t@),
            TokenKind::Identifier(t) => TokenView::Identifier(t@),
            TokenKind::EndOfFile => TokenView::EndOfFile,
        }
    }
}

impl TokenKind {
    pub fn is_symbol(&self, s: Symbol) -> (r: bool)
        ensures
            r == (self@ == TokenView::Symbol(s)),
    {
        match self {
            TokenKind::Symbol(t) => *t == s,
            _ => false,
        }
    }

    pub fn is_keyword(&self, k: Keyword) -> (r: bool)
        ensures
            r == (self@ == TokenView::Keyword(k)),
    {
        match self {
            TokenKind::Keyword(t) => *t == k,
            _ => false,
        }
    }

    pub fn is_eof(&self) -> (r: bool)
        ensures
            r == (self@ == TokenView::EndOfFile),
    {
        match self {
            TokenKind::EndOfFile => true,
            _ => false,
        }
    }

    /// How the token kind is written in messages.
    pub fn describe(&self) -> (r: String)
        ensures
            r@ == token_debug(self@),
    {
        match self {
            TokenKind::Keyword(k) => {
                let mut v = chars_of("Keyword(");
                push_str(&mut v, keyword_name_str(*k));
                push_str(&mut v, ")");
                string_of(&v)
            },
            TokenKind::Symbol(y) => {
                let mut v = chars_of("Symbol(");
                push_str(&mut v, symbol_name_str(*y));
                push_str(&mut v, ")");
                string_of(&v)
            },
            TokenKind::Number(t) => {
                let mut v = chars_of("Number(");
                let shown = number_debug_chars(&chars_of(t.as_str()));
                append_chars(&mut v, &shown);
                push_str(&mut v, ")");
                string_of(&v)
            },
            TokenKind::String(t) => {
                let mut v = chars_of("String(");
                push_quoted(&mut v, t.as_str());
                push_str(&mut v, ")");
                string_of(&v)
            },
            TokenKind::Identifier(t) => {
                let mut v = chars_of("Identifier(");
                push_quoted(&mut v, t.as_str());
                push_str(&mut v, ")");
                string_of(&v)
            },
            TokenKind::EndOfFile => lit("EndOfFile"),
        }
    }
}

/// The name of a keyword variant, as `Debug` writes it.
pub open spec fn keyword_name(k: Keyword) -> Seq<char> {
    match k {
        Keyword::If => "If"@,
        Keyword::Then => "Then"@,
        Keyword::Else => "Else"@,
        Keyword::End => "End"@,
        Keyword::For => "For"@,
        Keyword::In => "In"@,
        Keyword::Do => "Do"@,
        Keyword::While => "While"@,
        Keyword::Return => "Return"@,
        Keyword::Break => "Break"@,
        Keyword::Continue => "Continue"@,
        Keyword::Let => "Let"@,
        Keyword::Fn => "Fn"@,
        Keyword::Try => "Try"@,
        Keyword::Catch => "Catch"@,
        Keyword::As => "As"@,
        Keyword::Nil => "Nil"@,
        Keyword::True => "True"@,
        Keyword::False => "False"@,
    }
}

/// The name of a symbol variant, as `Debug` writes it.
pub open spec fn symbol_name(s: Symbol) -> Seq<char> {
    match s {
        Symbol::LParen => "LParen"@,
        Symbol::RParen => "RParen"@,
        Symbol::LBrace => "LBrace"@,
        Symbol::RBrace => "RBrace"@,
        Symbol::LBracket => "LBracket"@,
        Symbol::RBracket => "RBracket"@,
        Symbol::Comma => "Comma"@,
        Symbol::Dot => "Dot"@,
        Symbol::Plus => "Plus"@,
        Symbol::Minus => "Minus"@,
        Symbol::Star => "Star"@,
        Symbol::Slash => "Slash"@,
        Symbol::Percent => "Percent"@,
        Symbol::Eq => "Eq"@,
        Symbol::EqEq => "EqEq"@,
        Symbol::Not => "Not"@,
        Symbol::NotEq => "NotEq"@,
        Symbol::Lt => "Lt"@,
        Symbol::Lte => "Lte"@,
        Symbol::Gt => "Gt"@,
        Symbol::Gte => "Gte"@,
        Symbol::AndAnd => "AndAnd"@,
        Symbol::OrOr => "OrOr"@,
        Symbol::Pipe => "Pipe"@,
        Symbol::PipeGt => "PipeGt"@,
    }
}

/// A lowercase hexadecimal digit.
pub open spec fn hex_digit(d: nat) -> char {
    if d < 10 {
        ((d + 48) as u32) as char
    } else {
        ((d + 87) as u32) as char
    }
}

/// Lowercase hexadecimal rendering of `n`, without leading zeros.
pub open spec fn hex(n: nat) -> Seq<char>
    decreases n,
{
    if n < 16 {
        seq![hex_digit(n)]
    } else {
        hex(n / 16).push(hex_digit(n % 16))
    }
}

/// How a character is written inside a quoted string: the usual escapes for
/// quote, backslash, newline, return, tab and NUL, and `\u{..}` for the other
/// ASCII control characters.
pub open spec fn escape_debug(c: char) -> Seq<char> {
    if c == '"' {
        seq!['\\', '"']
    } else if c == '\\' {
        seq!['\\', '\\']
    } else if c == '\n' {
        seq!['\\', 'n']
    } else if c == '\r' {
        seq!['\\', 'r']
    } else if c == '\t' {
        seq!['\\', 't']
    } else if c == '\0' {
        seq!['\\', '0']
    } else if (c as u32) < 0x20 || (c as u32) == 0x7f {
        seq!['\\', 'u', '{'] + hex(c as nat) + seq!['}']
    } else {
        seq![c]
    }
}

/// `s` with each character escaped.
pub open spec fn escape_all(s: Seq<char>) -> Seq<char>
    decreases s.len(),
{
    if s.len() == 0 {
        Seq::empty()
    } else {
        escape_all(s.drop_last()) + escape_debug(s.last())
    }
}

/// `s` quoted and escaped.
pub open spec fn quoted(s: Seq<char>) -> Seq<char> {
    seq!['"'] + escape_all(s) + seq!['"']
}

/// How a token kind is written in messages: its variant and contents.
pub open spec fn token_debug(v: TokenView) -> Seq<char> {
    match v {
        TokenView::Keyword(k) => "Keyword("@ + keyword_name(k) + ")"@,
        TokenView::Symbol(s) => "Symbol("@ + symbol_name(s) + ")"@,
        TokenView::Number(t) => "Number("@ + number_debug(t) + ")"@,
        TokenView::Str(t) => "String("@ + quoted(t) + ")"@,
        TokenView::Identifier(t) => "Identifier("@ + quoted(t) + ")"@,
        TokenView::EndOfFile => "EndOfFile"@,
    }
}

/// A token and where it stands.
#[derive(Debug, Clone)]
pub struct Token {
    pub kind: TokenKind,
    pub span: Span,
}

impl Token {
    pub fn new(kind: TokenKind, span: Span) -> (t: Token)
        ensures
            t.kind@ == kind@,
            t.span == span,
    {
        Token { kind, span }
    }
}

/// An error in the characters of a source, at a span.
#[derive(Debug, Clone)]
pub struct TokenizationError {
    pub message: String,
    pub span: Span,
}

impl TokenizationError {
    pub fn new(message: String, span: Span) -> (e: TokenizationError)
        ensures
            e.message@ == message@,
            e.span == span,
    {
        TokenizationError { message, span }
    }

    /// `message (bytes start..end)`.
    pub fn describe(&self) -> (r: String)
        ensures
            r@ == self.message@ + " (bytes "@ + decimal(self.span.start as nat) + ".."@ + decimal(
                self.span.end as nat,
            ) + ")"@,
    {
        let mut v = chars_of(self.message.as_str());
        push_str(&mut v, " (bytes ");
        let a = decimal_chars(self.span.start);
        append_chars(&mut v, &a);
        push_str(&mut v, "..");
        let b = decimal_chars(self.span.end);
        append_chars(&mut v, &b);
        push_str(&mut v, ")");
        string_of(&v)
    }
}

/// The text of a keyword.
pub open spec fn keyword_text(k: Keyword) -> Seq<char> {
    match k {
        Keyword::If => "if"@,
        Keyword::Then => "then"@,
        Keyword::Else => "else"@,
        Keyword::End => "end"@,
        Keyword::For => "for"@,
        Keyword::In => "in"@,
        Keyword::Do => "do"@,
        Keyword::While => "while"@,
        Keyword::Return => "return"@,
        Keyword::Break => "break"@,
        Keyword::Continue => "continue"@,
        Keyword::Let => "let"@,
        Keyword::Fn => "fn"@,
        Keyword::Try => "try"@,
        Keyword::Catch => "catch"@,
        Keyword::As => "as"@,
        Keyword::Nil => "nil"@,
        Keyword::True => "true"@,
        Keyword::False => "false"@,
    }
}

/// The keyword whose text is `t`, if any.
pub open spec fn keyword_of(t: Seq<char>) -> Option<Keyword> {
    if t == "if"@ {
        Some(Keyword::If)
    } else if t == "then"@ {
        Some(Keyword::Then)
    } else if t == "else"@ {
        Some(Keyword::Else)
    } else if t == "end"@ {
        Some(Keyword::End)
    } else if t == "for"@ {
        Some(Keyword::For)
    } else if t == "in"@ {
        Some(Keyword::In)
    } else if t == "do"@ {
        Some(Keyword::Do)
    } else if t == "while"@ {
        Some(Keyword::While)
    } else if t == "return"@ {
        Some(Keyword::Return)
    } else if t == "break"@ {
        Some(Keyword::Break)
    } else if t == "continue"@ {
        Some(Keyword::Continue)
    } else if t == "let"@ {
        Some(Keyword::Let)
    } else if t == "fn"@ {
        Some(Keyword::Fn)
    } else if t == "try"@ {
        Some(Keyword::Try)
    } else if t == "catch"@ {
        Some(Keyword::Catch)
    } else if t == "as"@ {
        Some(Keyword::As)
    } else if t == "nil"@ {
        Some(Keyword::Nil)
    } else if t == "true"@ {
        Some(Keyword::True)
    } else if t == "false"@ {
        Some(Keyword::False)
    } else {
        None
    }
}

/// The symbol made of the two characters `c d`, if any.
pub open spec fn double_symbol(c: char, d: char) -> Option<Symbol> {
    if c == '=' && d == '=' {
        Some(Symbol::EqEq)
    } else if c == '!' && d == '=' {
        Some(Symbol::NotEq)
    } else if c == '<' && d == '=' {
        Some(Symbol::Lte)
    } else if c == '>' && d == '=' {
        Some(Symbol::Gte)
    } else if c == '&' && d == '&' {
        Some(Symbol::AndAnd)
    } else if c == '|' && d == '|' {
        Some(Symbol::OrOr)
    } else if c == '|' && d == '>' {
        Some(Symbol::PipeGt)
    } else {
        None
    }
}

/// The symbol made of the single character `c`, if any.
pub open spec fn single_symbol(c: char) -> Option<Symbol> {
    if c == '(' {
        Some(Symbol::LParen)
    } else if c == ')' {
        Some(Symbol::RParen)
    } else if c == '{' {
        Some(Symbol::LBrace)
    } else if c == '}' {
        Some(Symbol::RBrace)
    } else if c == '[' {
        Some(Symbol::LBracket)
    } else if c == ']' {
        Some(Symbol::RBracket)
    } else if c == ',' {
        Some(Symbol::Comma)
    } else if c == '.' {
        Some(Symbol::Dot)
    } else if c == '+' {
        Some(Symbol::Plus)
    } else if c == '-' {
        Some(Symbol::Minus)
    } else if c == '*' {
        Some(Symbol::Star)
    } else if c == '/' {
        Some(Symbol::Slash)
    } else if c == '%' {
        Some(Symbol::Percent)
    } else if c == '=' {
        Some(Symbol::Eq)
    } else if c == '!' {
        Some(Symbol::Not)
    } else if c == '<' {
        Some(Symbol::Lt)
    } else if c == '>' {
        Some(Symbol::Gt)
    } else if c == '|' {
        Some(Symbol::Pipe)
    } else {
        None
    }
}

/// The position after the whitespace and comments that start at `i`
/// (`in_comment`: `i` is inside a comment).
pub open spec fn skip_from(s: Seq<char>, i: int, in_comment: bool) -> int
    decreases s.len() - i,
{
    if i < 0 || i >= s.len() {
        i
    } else if in_comment {
        skip_from(s, i + 1, s[i] != '\n')
    } else if is_ws(s[i]) {
        skip_from(s, i + 1, false)
    } else if s[i] == '#' {
        skip_from(s, i + 1, true)
    } else if s[i] == '-' && i + 1 < s.len() && s[i + 1] == '-' {
        skip_from(s, i + 2, true)
    } else {
        i
    }
}

/// The end of the run of identifier characters that starts at `j`.
pub open spec fn ident_end(s: Seq<char>, j: int) -> int
    decreases s.len() - j,
{
    if 0 <= j < s.len() && is_ident_char(s[j]) {
        ident_end(s, j + 1)
    } else {
        j
    }
}

/// The end of the run of digits with at most one `.` (`dot`: one was seen).
pub open spec fn number_end(s: Seq<char>, j: int, dot: bool) -> int
    decreases s.len() - j,
{
    if 0 <= j < s.len() && is_ascii_digit(s[j]) {
        number_end(s, j + 1, dot)
    } else if 0 <= j < s.len() && s[j] == '.' && !dot {
        number_end(s, j + 1, true)
    } else {
        j
    }
}

/// The character that an escape `\e` stands for, if `e` is a known escape.
pub open spec fn escape_of(e: char) -> Option<char> {
    if e == 'n' {
        Some('\n')
    } else if e == 'r' {
        Some('\r')
    } else if e == 't' {
        Some('\t')
    } else if e == '\\' {
        Some('\\')
    } else if e == '"' {
        Some('"')
    } else if e == '0' {
        Some('\0')
    } else {
        None
    }
}

/// The escapes of a string literal name the characters that the same
/// escapes name in JSON: `\n` a line feed, `\r` a carriage return, `\t` a
/// tab, `\\` a backslash and `\"` a quote; `\0` names NUL; and no other
/// character after a backslash is an escape.
pub proof fn law_escapes_name_their_characters(e: char)
    ensures
        escape_of(e) is Some <==> e == '0' || e == 'n' || e == 'r' || e == 't' || e == '\\' || e == '"',
        escape_of(e) is Some && e != '0' ==> escape_of(e)->0 as int == json_escape_meaning(e)->0,
        escape_of(e) is Some && e == '0' ==> escape_of(e)->0 as int == 0,
{
}

/// The outcome of one step of the lexer, in character positions.
pub enum LexStep {
    /// A token from `start` to `end`.
    Token(TokenView, int, int),
    /// An error with its subkind and message, spanning `start` to `end`.
    Error(Seq<char>, Seq<char>, int, int),
}

/// The rest of a string literal whose opening quote is at `open`, read from
/// `j` with `acc` read so far.
pub open spec fn string_from(s: Seq<char>, open: int, j: int, acc: Seq<char>) -> LexStep
    decreases s.len() - j,
{
    if j < 0 || j >= s.len() || (s[j] == '\\' && j + 1 >= s.len()) {
        LexStep::Error("unterminated string literal"@, Seq::empty(), open, s.len() as int)
    } else if s[j] == '"' {
        LexStep::Token(TokenView::Str(acc), open, j + 1)
    } else if s[j] == '\\' {
        match escape_of(s[j + 1]) {
            Some(c) => string_from(s, open, j + 2, acc.push(c)),
            None => LexStep::Error(
                "invalid escape sequence"@,
                "got "@.push(s[j + 1]),
                j,
                j + 2,
            ),
        }
    } else {
        string_from(s, open, j + 1, acc.push(s[j]))
    }
}

/// The token (or error) that starts at position `i`, where nothing is to be skipped.
pub open spec fn lex_at(s: Seq<char>, i: int) -> LexStep {
    if i >= s.len() {
        LexStep::Token(TokenView::EndOfFile, s.len() as int, s.len() as int)
    } else {
        let c = s[i];
        if is_ident_start(c) {
            let e = ident_end(s, i + 1);
            let t = s.subrange(i, e);
            match keyword_of(t) {
                Some(k) => LexStep::Token(TokenView::Keyword(k), i, e),
                None => LexStep::Token(TokenView::Identifier(t), i, e),
            }
        } else if is_ascii_digit(c) {
            let e = number_end(s, i + 1, false);
            LexStep::Token(TokenView::Number(s.subrange(i, e)), i, e)
        } else if c == '"' {
            string_from(s, i, i + 1, Seq::empty())
        } else if i + 1 < s.len() && double_symbol(c, s[i + 1]) is Some {
            LexStep::Token(TokenView::Symbol(double_symbol(c, s[i + 1])->0), i, i + 2)
        } else if single_symbol(c) is Some {
            LexStep::Token(TokenView::Symbol(single_symbol(c)->0), i, i + 1)
        } else {
            LexStep::Error("unexpected character"@, "got "@.push(c), i, i + 1)
        }
    }
}

/// Byte offset of character position `i` of `s`.
pub open spec fn offset(s: Seq<char>, i: int) -> int {
    byte_len(s.take(i)) as int
}

/// Reads the tokens of one source.
pub struct Lexer {
    source: SourceId,
    chars: Vec<char>,
    size: usize,
    pos: usize,
    off: usize,
}

impl Lexer {
    /// The characters being read.
    pub closed spec fn text(&self) -> Seq<char> {
        self.chars@
    }

    /// The character position of the next unread character.
    pub closed spec fn pos(&self) -> int {
        self.pos as int
    }

    pub closed spec fn source_id(&self) -> SourceId {
        self.source
    }

    pub closed spec fn wf(&self) -> bool {
        &&& self.pos <= self.chars@.len()
        &&& self.off == byte_len(self.chars@.take(self.pos as int))
        &&& self.size == byte_len(self.chars@)
    }

    /// A lexer at the start of `source`.
    pub fn new(source: &Source) -> (l: Lexer)
        requires
            byte_len(source.text()) < usize::MAX,
        ensures
            l.wf(),
            l.text() == source.text(),
            l.pos() == 0,
            l.source_id() == source.id,
    {
        let (chars, size) = decode(source.content.as_str());
        assert(chars@.take(0) =~= Seq::<char>::empty());
        assert(byte_len(Seq::<char>::empty()) == 0);
        Lexer { source: source.id, chars, size, pos: 0, off: 0 }
    }

    /// The position of a well-formed lexer lies within its text.
    pub proof fn lemma_pos(&self)
        requires
            self.wf(),
        ensures
            0 <= self.pos() <= self.text().len(),
            byte_len(self.text()) <= usize::MAX,
    {
    }

    proof fn lemma_offsets(&self, k: int)
        requires
            self.wf(),
            0 <= k <= self.chars@.len(),
        ensures
            byte_len(self.chars@.take(k)) <= self.size,
    {
        lemma_byte_len_prefix_le(self.chars@, k);
    }

    /// Moves one character ahead.
    fn bump(&mut self)
        requires
            old(self).wf(),
            old(self).pos() < old(self).text().len(),
        ensures
            final(self).wf(),
            final(self).text() == old(self).text(),
            final(self).source_id() == old(self).source_id(),
            final(self).pos() == old(self).pos() + 1,
    {
        let _n = self.chars.len();
        proof {
            lemma_byte_len_step(self.chars@, self.pos as int);
            lemma_byte_len_prefix_le(self.chars@, self.pos + 1);
        }
        self.off = self.off + char_width(self.chars[self.pos]);
        self.pos = self.pos + 1;
    }

    /// Skips whitespace and comments.
    fn skip_ignored(&mut self)
        requires
            old(self).wf(),
        ensures
            final(self).wf(),
            final(self).text() == old(self).text(),
            final(self).source_id() == old(self).source_id(),
            final(self).pos() == skip_from(old(self).text(), old(self).pos(), false),
    {
        let mut in_comment = false;
        while self.pos < self.chars.len()
            invariant_except_break
                self.wf(),
                self.text() == old(self).text(),
                self.source_id() == old(self).source_id(),
                skip_from(self.text(), self.pos(), in_comment) == skip_from(
                    old(self).text(),
                    old(self).pos(),
                    false,
                ),
            ensures
                self.wf(),
                self.text() == old(self).text(),
                self.source_id() == old(self).source_id(),
                self.pos() == skip_from(old(self).text(), old(self).pos(), false),
            decreases self.chars@.len() - self.pos,
        {
            let c = self.chars[self.pos];
            if in_comment {
                in_comment = c != '\n';
                self.bump();
            } else if is_whitespace(c) {
                self.bump();
            } else if c == '#' {
                in_comment = true;
                self.bump();
            } else if c == '-' && self.pos + 1 < self.chars.len() && self.chars[self.pos + 1] == '-' {
                in_comment = true;
                self.bump();
                self.bump();
            } else {
                break;
            }
        }
    }

    /// The keyword spelled by `text`, if any.
    pub fn keyword_kind(text: &[char]) -> (r: Option<Keyword>)
        ensures
            r == keyword_of(text@),
    {
        if matches_lit(text, "if") {
            Some(Keyword::If)
        } else if matches_lit(text, "then") {
            Some(Keyword::Then)
        } else if matches_lit(text, "else") {
            Some(Keyword::Else)
        } else if matches_lit(text, "end") {
            Some(Keyword::End)
        } else if matches_lit(text, "for") {
            Some(Keyword::For)
        } else if matches_lit(text, "in") {
            Some(Keyword::In)
        } else if matches_lit(text, "do") {
            Some(Keyword::Do)
        } else if matches_lit(text, "while") {
            Some(Keyword::While)
        } else if matches_lit(text, "return") {
            Some(Keyword::Return)
        } else if matches_lit(text, "break") {
            Some(Keyword::Break)
        } else if matches_lit(text, "continue") {
            Some(Keyword::Continue)
        } else if matches_lit(text, "let") {
            Some(Keyword::Let)
        } else if matches_lit(text, "fn") {
            Some(Keyword::Fn)
        } else if matches_lit(text, "try") {
            Some(Keyword::Try)
        } else if matches_lit(text, "catch") {
            Some(Keyword::Catch)
        } else if matches_lit(text, "as") {
            Some(Keyword::As)
        } else if matches_lit(text, "nil") {
            Some(Keyword::Nil)
        } else if matches_lit(text, "true") {
            Some(Keyword::True)
        } else if matches_lit(text, "false") {
            Some(Keyword::False)
        } else {
            None
        }
    }

    /// A span of the source being read, from character position `a` to `b`.
    fn make_span(&self, a: usize, b: usize) -> (r: Span)
        requires
            self.wf(),
            a <= b <= self.text().len(),
        ensures
            r.source == self.source_id(),
            r.start == offset(self.text(), a as int),
            r.end == offset(self.text(), b as int),
    {
        let sa = self.offset_of(a);
        let sb = self.offset_of(b);
        proof {
            if a < b {
                lemma_byte_len_strict(self.chars@, a as int, b as int);
            }
        }
        Span { source: self.source, start: sa, end: sb }
    }

    /// Byte offset of character position `k`.
    fn offset_of(&self, k: usize) -> (r: usize)
        requires
            self.wf(),
            k <= self.text().len(),
        ensures
            r == offset(self.text(), k as int),
    {
        let mut j: usize = 0;
        let mut o: usize = 0;
        assert(self.chars@.take(0) =~= Seq::<char>::empty());
        assert(byte_len(Seq::<char>::empty()) == 0);
        while j < k
            invariant
                self.wf(),
                j <= k <= self.chars@.len(),
                o == byte_len(self.chars@.take(j as int)),
            decreases k - j,
        {
            proof {
                lemma_byte_len_step(self.chars@, j as int);
                self.lemma_offsets(j + 1);
            }
            o = o + char_width(self.chars[j]);
            j = j + 1;
        }
        o
    }

    /// Reads the next token.
    pub fn next_token(&mut self) -> (r: Result<Token, LangError>)
        requires
            old(self).wf(),
        ensures
            final(self).wf(),
            final(self).text() == old(self).text(),
            final(self).source_id() == old(self).source_id(),
            final(self).pos() >= old(self).pos(),
            ({
                let s = old(self).text();
                let i = skip_from(s, old(self).pos(), false);
                match r {
                    Ok(t) => lex_at(s, i) matches LexStep::Token(v, a, b) && t.kind@ == v
                        && t.span.source == old(self).source_id() && t.span.start == offset(s, a)
                        && t.span.end == offset(s, b) && final(self).pos() == b,
                    Err(e) => lex_at(s, i) matches LexStep::Error(sub, msg, a, b) && e.is_invalid_input(sub)
                        && e.message@ == msg && e.traceback@ == seq![
                        Span { source: old(self).source_id(), start: offset(s, a) as usize, end: offset(s, b) as usize },
                    ],
                }
            }),
    {
        self.skip_ignored();
        let ghost s = self.chars@;
        let ghost i = self.pos as int;
        proof {
            lemma_skip_bounds(s, old(self).pos(), false);
        }
        if self.pos >= self.chars.len() {
            let n = self.chars.len();
            let span = self.make_span(n, n);
            return Ok(Token::new(TokenKind::EndOfFile, span));
        }
        let start = self.pos;
        let c = self.chars[start];
        if ident_start(c) {
            self.bump();
            while self.pos < self.chars.len() && ident_char(self.chars[self.pos])
                invariant
                    self.wf(),
                    self.text() == s,
                    s == old(self).text(),
                    self.source_id() == old(self).source_id(),
                    start < self.pos(),
                    ident_end(s, self.pos()) == ident_end(s, start + 1),
                decreases s.len() - self.pos,
            {
                self.bump();
            }
            let end = self.pos;
            let text = copy_range(self.chars.as_slice(), start, end);
            let span = self.make_span(start, end);
            let kind = match Self::keyword_kind(text.as_slice()) {
                Some(k) => TokenKind::Keyword(k),
                None => TokenKind::Identifier(string_of(&text)),
            };
            return Ok(Token::new(kind, span));
        }
        if digit_char(c) {
            self.bump();
            let mut dot = false;
            while self.pos < self.chars.len() && (digit_char(self.chars[self.pos]) || (
            self.chars[self.pos] == '.' && !dot))
                invariant
                    self.wf(),
                    self.text() == s,
                    s == old(self).text(),
                    self.source_id() == old(self).source_id(),
                    start < self.pos(),
                    number_end(s, self.pos(), dot) == number_end(s, start + 1, false),
                decreases s.len() - self.pos,
            {
                if self.chars[self.pos] == '.' {
                    dot = true;
                }
                self.bump();
            }
            let end = self.pos;
            let text = copy_range(self.chars.as_slice(), start, end);
            let span = self.make_span(start, end);
            return Ok(Token::new(TokenKind::Number(string_of(&text)), span));
        }
        if c == '"' {
            return self.lex_string();
        }
        if start + 1 < self.chars.len() {
            let d = self.chars[start + 1];
            if let Some(sym) = symbol_pair(c, d) {
                self.bump();
                self.bump();
                let span = self.make_span(start, start + 2);
                return Ok(Token::new(TokenKind::Symbol(sym), span));
            }
        }
        if let Some(sym) = symbol_single(c) {
            self.bump();
            let span = self.make_span(start, start + 1);
            return Ok(Token::new(TokenKind::Symbol(sym), span));
        }
        let span = self.make_span(start, start + 1);
        let mut message = lit("got ");
        push_char(&mut message, c);
        Err(LangError::invalid_input("unexpected character", message, span))
    }

    /// Reads a string literal whose opening quote is the next character.
    fn lex_string(&mut self) -> (r: Result<Token, LangError>)
        requires
            old(self).wf(),
            old(self).pos() < old(self).text().len(),
            old(self).text()[old(self).pos()] == '"',
        ensures
            final(self).wf(),
            final(self).text() == old(self).text(),
            final(self).source_id() == old(self).source_id(),
            final(self).pos() > old(self).pos(),
            ({
                let s = old(self).text();
                let i = old(self).pos();
                match r {
                    Ok(t) => string_from(s, i, i + 1, Seq::empty()) matches LexStep::Token(v, a, b) && t.kind@ == v
                        && t.span.source == old(self).source_id() && t.span.start == offset(s, a)
                        && t.span.end == offset(s, b) && final(self).pos() == b,
                    Err(e) => string_from(s, i, i + 1, Seq::empty()) matches LexStep::Error(sub, msg, a, b) && e.is_invalid_input(sub)
                        && e.message@ == msg && e.traceback@ == seq![
                        Span { source: old(self).source_id(), start: offset(s, a) as usize, end: offset(s, b) as usize },
                    ],
                }
            }),
    {
        let ghost s = self.chars@;
        let start = self.pos;
        self.bump();
        let mut value = String::new();
        while self.pos < self.chars.len()
            invariant
                self.wf(),
                self.text() == s,
                s == old(self).text(),
                self.source_id() == old(self).source_id(),
                start < self.pos(),
                start == old(self).pos(),
                string_from(s, start as int, self.pos(), value@) == string_from(s, start as int, start + 1, Seq::empty()),
            ensures
                self.wf(),
                self.text() == s,
                s == old(self).text(),
                self.source_id() == old(self).source_id(),
                string_from(s, start as int, self.pos(), value@) == string_from(s, start as int, start + 1, Seq::empty()),
                self.pos() >= s.len() || (s[self.pos()] == '\\' && self.pos() + 1 >= s.len()),
            decreases s.len() - self.pos,
        {
            let c = self.chars[self.pos];
            if c == '"' {
                self.bump();
                let span = self.make_span(start, self.pos);
                return Ok(Token::new(TokenKind::String(value), span));
            } else if c == '\\' {
                if self.pos + 1 >= self.chars.len() {
                    break;
                }
                let e = self.chars[self.pos + 1];
                match escape_char(e) {
                    Some(x) => {
                        push_char(&mut value, x);
                        self.bump();
                        self.bump();
                    },
                    None => {
                        let span = self.make_span(self.pos, self.pos + 2);
                        let mut message = lit("got ");
                        push_char(&mut message, e);
                        return Err(LangError::invalid_input("invalid escape sequence", message, span));
                    },
                }
            } else {
                push_char(&mut value, c);
                self.bump();
            }
        }
        let n = self.chars.len();
        let span = self.make_span(start, n);
        Err(LangError::invalid_input("unterminated string literal", String::new(), span))
    }
}

/// The tokens of `s` read from position `i` on, up to and including the end
/// of file; they stop short at the first error.
pub open spec fn tokens_from(s: Seq<char>, i: int) -> Seq<TokenView>
    decreases s.len() - i,
{
    if i < 0 || i > s.len() {
        Seq::empty()
    } else {
        match lex_at(s, skip_from(s, i, false)) {
            LexStep::Token(v, a, b) => if v is EndOfFile {
                seq![v]
            } else if i < b <= s.len() {
                seq![v] + tokens_from(s, b)
            } else {
                seq![v]
            },
            LexStep::Error(_, _, _, _) => Seq::empty(),
        }
    }
}

pub proof fn lemma_ident_end(s: Seq<char>, j: int)
    requires
        0 <= j <= s.len(),
    ensures
        j <= ident_end(s, j) <= s.len(),
    decreases s.len() - j,
{
    if j < s.len() && is_ident_char(s[j]) {
        lemma_ident_end(s, j + 1);
    }
}

pub proof fn lemma_number_end(s: Seq<char>, j: int, dot: bool)
    requires
        0 <= j <= s.len(),
    ensures
        j <= number_end(s, j, dot) <= s.len(),
    decreases s.len() - j,
{
    if j < s.len() && is_ascii_digit(s[j]) {
        lemma_number_end(s, j + 1, dot);
    } else if j < s.len() && s[j] == '.' && !dot {
        lemma_number_end(s, j + 1, true);
    }
}

pub proof fn lemma_string_end(s: Seq<char>, open: int, j: int, acc: Seq<char>)
    requires
        0 <= open < j <= s.len(),
    ensures
        string_from(s, open, j, acc) matches LexStep::Token(v, a, b) ==> a == open && j < b
            <= s.len() && v is Str,
        string_from(s, open, j, acc) matches LexStep::Error(_, _, a, b) ==> 0 <= a <= b <= s.len(),
    decreases s.len() - j,
{
    if j < s.len() && !(s[j] == '\\' && j + 1 >= s.len()) && s[j] != '"' {
        if s[j] == '\\' {
            if escape_of(s[j + 1]) is Some {
                lemma_string_end(s, open, j + 2, acc.push(escape_of(s[j + 1])->0));
            }
        } else {
            lemma_string_end(s, open, j + 1, acc.push(s[j]));
        }
    }
}

/// A token other than the end of file starts where reading starts and is not empty.
pub proof fn lemma_lex_progress(s: Seq<char>, i: int)
    requires
        0 <= i <= s.len(),
    ensures
        lex_at(s, i) matches LexStep::Token(v, a, b) ==> (v is EndOfFile && a == b == s.len()) || (!(
        v is EndOfFile) && a == i && i < b <= s.len()),
        lex_at(s, i) matches LexStep::Error(_, _, a, b) ==> 0 <= a <= b <= s.len(),
{
    if i < s.len() {
        let c = s[i];
        if is_ident_start(c) {
            lemma_ident_end(s, i + 1);
        } else if is_ascii_digit(c) {
            lemma_number_end(s, i + 1, false);
        } else if c == '"' {
            lemma_string_end(s, i, i + 1, Seq::empty());
        }
    }
}

/// Reading one token from `i` gives the first of `tokens_from(s, i)`.
pub proof fn lemma_tokens_step(s: Seq<char>, i: int)
    requires
        0 <= i <= s.len(),
    ensures
        ({
            let k = skip_from(s, i, false);
            lex_at(s, k) matches LexStep::Token(v, a, b) ==> if v is EndOfFile {
                tokens_from(s, i) == seq![v] && b == s.len()
            } else {
                tokens_from(s, i) == seq![v] + tokens_from(s, b) && i < b <= s.len()
            }
        }),
{
    lemma_skip_bounds(s, i, false);
    lemma_lex_progress(s, skip_from(s, i, false));
}

pub proof fn lemma_skip_bounds(s: Seq<char>, i: int, c: bool)
    requires
        0 <= i <= s.len(),
    ensures
        i <= skip_from(s, i, c) <= s.len(),
        skip_from(s, i, c) < s.len() ==> !is_ws(s[skip_from(s, i, c)]) && s[skip_from(s, i, c)] != '#',
        skip_from(s, i, c) + 1 < s.len() ==> !(s[skip_from(s, i, c)] == '-' && s[skip_from(s, i, c) + 1] == '-'),
    decreases s.len() - i,
{
    if i < s.len() {
        if c {
            lemma_skip_bounds(s, i + 1, s[i] != '\n');
        } else if is_ws(s[i]) {
            lemma_skip_bounds(s, i + 1, false);
        } else if s[i] == '#' {
            lemma_skip_bounds(s, i + 1, true);
        } else if s[i] == '-' && i + 1 < s.len() && s[i + 1] == '-' {
            lemma_skip_bounds(s, i + 2, true);
        }
    }
}

fn keyword_name_str(k: Keyword) -> (r: &'static str)
    ensures
        r@ == keyword_name(k),
{
    match k {
        Keyword::If => "If",
        Keyword::Then => "Then",
        Keyword::Else => "Else",
        Keyword::End => "End",
        Keyword::For => "For",
        Keyword::In => "In",
        Keyword::Do => "Do",
        Keyword::While => "While",
        Keyword::Return => "Return",
        Keyword::Break => "Break",
        Keyword::Continue => "Continue",
        Keyword::Let => "Let",
        Keyword::Fn => "Fn",
        Keyword::Try => "Try",
        Keyword::Catch => "Catch",
        Keyword::As => "As",
        Keyword::Nil => "Nil",
        Keyword::True => "True",
        Keyword::False => "False",
    }
}

fn symbol_name_str(s: Symbol) -> (r: &'static str)
    ensures
        r@ == symbol_name(s),
{
    match s {
        Symbol::LParen => "LParen",
        Symbol::RParen => "RParen",
        Symbol::LBrace => "LBrace",
        Symbol::RBrace => "RBrace",
        Symbol::LBracket => "LBracket",
        Symbol::RBracket => "RBracket",
        Symbol::Comma => "Comma",
        Symbol::Dot => "Dot",
        Symbol::Plus => "Plus",
        Symbol::Minus => "Minus",
        Symbol::Star => "Star",
        Symbol::Slash => "Slash",
        Symbol::Percent => "Percent",
        Symbol::Eq => "Eq",
        Symbol::EqEq => "EqEq",
        Symbol::Not => "Not",
        Symbol::NotEq => "NotEq",
        Symbol::Lt => "Lt",
        Symbol::Lte => "Lte",
        Symbol::Gt => "Gt",
        Symbol::Gte => "Gte",
        Symbol::AndAnd => "AndAnd",
        Symbol::OrOr => "OrOr",
        Symbol::Pipe => "Pipe",
        Symbol::PipeGt => "PipeGt",
    }
}

fn hex_digit_char(d: u32) -> (c: char)
    requires
        d < 16,
    ensures
        c == hex_digit(d as nat),
{
    if d < 10 {
        char_of(d + 48)
    } else {
        char_of(d + 87)
    }
}

/// The character with an ASCII code.
fn char_of(u: u32) -> (c: char)
    requires
        u < 128,
    ensures
        c == (u as char),
{
    let b: u8 = u as u8;
    b as char
}

fn push_hex(v: &mut Vec<char>, n: u32)
    ensures
        final(v)@ == old(v)@ + hex(n as nat),
    decreases n,
{
    if n < 16 {
        v.push(hex_digit_char(n));
        assert(hex(n as nat) =~= seq![hex_digit(n as nat)]);
    } else {
        push_hex(v, n / 16);
        v.push(hex_digit_char(n % 16));
        assert(old(v)@ + hex(n as nat) =~= old(v)@ + hex((n / 16) as nat) + seq![hex_digit((n % 16) as nat)]);
    }
}

fn push_escaped(v: &mut Vec<char>, c: char)
    ensures
        final(v)@ == old(v)@ + escape_debug(c),
{
    let u = c as u32;
    if c == '"' {
        v.push('\\');
        v.push('"');
    } else if c == '\\' {
        v.push('\\');
        v.push('\\');
    } else if c == '\n' {
        v.push('\\');
        v.push('n');
    } else if c == '\r' {
        v.push('\\');
        v.push('r');
    } else if c == '\t' {
        v.push('\\');
        v.push('t');
    } else if c == '\0' {
        v.push('\\');
        v.push('0');
    } else if u < 0x20 || u == 0x7f {
        v.push('\\');
        v.push('u');
        v.push('{');
        push_hex(v, u);
        v.push('}');
    } else {
        v.push(c);
    }
    assert(final(v)@ =~= old(v)@ + escape_debug(c));
}

fn push_quoted(v: &mut Vec<char>, s: &str)
    ensures
        final(v)@ == old(v)@ + quoted(s@),
{
    let cs = chars_of(s);
    let ghost start = v@;
    v.push('"');
    let mut k: usize = 0;
    assert(cs@.take(0) =~= Seq::<char>::empty());
    while k < cs.len()
        invariant
            k <= cs@.len(),
            cs@ == s@,
            v@ == start + seq!['"'] + escape_all(cs@.take(k as int)),
        decreases cs.len() - k,
    {
        push_escaped(v, cs[k]);
        proof {
            let t = cs@.take(k + 1);
            assert(t.drop_last() =~= cs@.take(k as int));
            assert(v@ =~= start + seq!['"'] + escape_all(t));
        }
        k = k + 1;
    }
    v.push('"');
    assert(cs@.take(cs@.len() as int) =~= cs@);
    assert(v@ =~= start + quoted(s@));
}

/// `t` spells the literal `l`.
fn matches_lit(t: &[char], l: &str) -> (r: bool)
    ensures
        r == (t@ == l@),
{
    let w = chars_of(l);
    chars_eq(t, w.as_slice())
}

fn symbol_pair(c: char, d: char) -> (r: Option<Symbol>)
    ensures
        r == double_symbol(c, d),
{
    if c == '=' && d == '=' {
        Some(Symbol::EqEq)
    } else if c == '!' && d == '=' {
        Some(Symbol::NotEq)
    } else if c == '<' && d == '=' {
        Some(Symbol::Lte)
    } else if c == '>' && d == '=' {
        Some(Symbol::Gte)
    } else if c == '&' && d == '&' {
        Some(Symbol::AndAnd)
    } else if c == '|' && d == '|' {
        Some(Symbol::OrOr)
    } else if c == '|' && d == '>' {
        Some(Symbol::PipeGt)
    } else {
        None
    }
}

fn symbol_single(c: char) -> (r: Option<Symbol>)
    ensures
        r == single_symbol(c),
{
    if c == '(' {
        Some(Symbol::LParen)
    } else if c == ')' {
        Some(Symbol::RParen)
    } else if c == '{' {
        Some(Symbol::LBrace)
    } else if c == '}' {
        Some(Symbol::RBrace)
    } else if c == '[' {
        Some(Symbol::LBracket)
    } else if c == ']' {
        Some(Symbol::RBracket)
    } else if c == ',' {
        Some(Symbol::Comma)
    } else if c == '.' {
        Some(Symbol::Dot)
    } else if c == '+' {
        Some(Symbol::Plus)
    } else if c == '-' {
        Some(Symbol::Minus)
    } else if c == '*' {
        Some(Symbol::Star)
    } else if c == '/' {
        Some(Symbol::Slash)
    } else if c == '%' {
        Some(Symbol::Percent)
    } else if c == '=' {
        Some(Symbol::Eq)
    } else if c == '!' {
        Some(Symbol::Not)
    } else if c == '<' {
        Some(Symbol::Lt)
    } else if c == '>' {
        Some(Symbol::Gt)
    } else if c == '|' {
        Some(Symbol::Pipe)
    } else {
        None
    }
}

fn escape_char(e: char) -> (r: Option<char>)
    ensures
        r == escape_of(e),
{
    if e == 'n' {
        Some('\n')
    } else if e == 'r' {
        Some('\r')
    } else if e == 't' {
        Some('\t')
    } else if e == '\\' {
        Some('\\')
    } else if e == '"' {
        Some('"')
    } else if e == '0' {
        Some('\0')
    } else {
        None
    }
}

/// Every keyword is read back as itself from its text.
pub proof fn law_keyword_roundtrip(k: Keyword)
    ensures
        keyword_of(keyword_text(k)) == Some(k),
{
    reveal_strlit("if");
    reveal_strlit("then");
    reveal_strlit("else");
    reveal_strlit("end");
    reveal_strlit("for");
    reveal_strlit("in");
    reveal_strlit("do");
    reveal_strlit("while");
    reveal_strlit("return");
    reveal_strlit("break");
    reveal_strlit("continue");
    reveal_strlit("let");
    reveal_strlit("fn");
    reveal_strlit("try");
    reveal_strlit("catch");
    reveal_strlit("as");
    reveal_strlit("nil");
    reveal_strlit("true");
    reveal_strlit("false");
    match k {
        Keyword::If => {
        },
        Keyword::Then => {
            assert("then"@ != "if"@) by { assert("then"@.len() != "if"@.len() || "then"@[0] != "if"@[0] || "then"@[1] != "if"@[1]); }
        },
        Keyword::Else => {
            assert("else"@ != "if"@) by { assert("else"@.len() != "if"@.len() || "else"@[0] != "if"@[0] || "else"@[1] != "if"@[1]); }
            assert("else"@ != "then"@) by { assert("else"@.len() != "then"@.len() || "else"@[0] != "then"@[0] || "else"@[1] != "then"@[1]); }
        },
        Keyword::End => {
            assert("end"@ != "if"@) by { assert("end"@.len() != "if"@.len() || "end"@[0] != "if"@[0] || "end"@[1] != "if"@[1]); }
            assert("end"@ != "then"@) by { assert("end"@.len() != "then"@.len() || "end"@[0] != "then"@[0] || "end"@[1] != "then"@[1]); }
            assert("end"@ != "else"@) by { assert("end"@.len() != "else"@.len() || "end"@[0] != "else"@[0] || "end"@[1] != "else"@[1]); }
        },
        Keyword::For => {
            assert("for"@ != "if"@) by { assert("for"@.len() != "if"@.len() || "for"@[0] != "if"@[0] || "for"@[1] != "if"@[1]); }
            assert("for"@ != "then"@) by { assert("for"@.len() != "then"@.len() || "for"@[0] != "then"@[0] || "for"@[1] != "then"@[1]); }
            assert("for"@ != "else"@) by { assert("for"@.len() != "else"@.len() || "for"@[0] != "else"@[0] || "for"@[1] != "else"@[1]); }
            assert("for"@ != "end"@) by { assert("for"@.len() != "end"@.len() || "for"@[0] != "end"@[0] || "for"@[1] != "end"@[1]); }
        },
        Keyword::In => {
            assert("in"@ != "if"@) by { assert("in"@.len() != "if"@.len() || "in"@[0] != "if"@[0] || "in"@[1] != "if"@[1]); }
            assert("in"@ != "then"@) by { assert("in"@.len() != "then"@.len() || "in"@[0] != "then"@[0] || "in"@[1] != "then"@[1]); }
            assert("in"@ != "else"@) by { assert("in"@.len() != "else"@.len() || "in"@[0] != "else"@[0] || "in"@[1] != "else"@[1]); }
            assert("in"@ != "end"@) by { assert("in"@.len() != "end"@.len() || "in"@[0] != "end"@[0] || "in"@[1] != "end"@[1]); }
            assert("in"@ != "for"@) by { assert("in"@.len() != "for"@.len() || "in"@[0] != "for"@[0] || "in"@[1] != "for"@[1]); }
        },
        Keyword::Do => {
            assert("do"@ != "if"@) by { assert("do"@.len() != "if"@.len() || "do"@[0] != "if"@[0] || "do"@[1] != "if"@[1]); }
            assert("do"@ != "then"@) by { assert("do"@.len() != "then"@.len() || "do"@[0] != "then"@[0] || "do"@[1] != "then"@[1]); }
            assert("do"@ != "else"@) by { assert("do"@.len() != "else"@.len() || "do"@[0] != "else"@[0] || "do"@[1] != "else"@[1]); }
            assert("do"@ != "end"@) by { assert("do"@.len() != "end"@.len() || "do"@[0] != "end"@[0] || "do"@[1] != "end"@[1]); }
            assert("do"@ != "for"@) by { assert("do"@.len() != "for"@.len() || "do"@[0] != "for"@[0] || "do"@[1] != "for"@[1]); }
            assert("do"@ != "in"@) by { assert("do"@.len() != "in"@.len() || "do"@[0] != "in"@[0] || "do"@[1] != "in"@[1]); }
        },
        Keyword::While => {
            assert("while"@ != "if"@) by { assert("while"@.len() != "if"@.len() || "while"@[0] != "if"@[0] || "while"@[1] != "if"@[1]); }
            assert("while"@ != "then"@) by { assert("while"@.len() != "then"@.len() || "while"@[0] != "then"@[0] || "while"@[1] != "then"@[1]); }
            assert("while"@ != "else"@) by { assert("while"@.len() != "else"@.len() || "while"@[0] != "else"@[0] || "while"@[1] != "else"@[1]); }
            assert("while"@ != "end"@) by { assert("while"@.len() != "end"@.len() || "while"@[0] != "end"@[0] || "while"@[1] != "end"@[1]); }
            assert("while"@ != "for"@) by { assert("while"@.len() != "for"@.len() || "while"@[0] != "for"@[0] || "while"@[1] != "for"@[1]); }
            assert("while"@ != "in"@) by { assert("while"@.len() != "in"@.len() || "while"@[0] != "in"@[0] || "while"@[1] != "in"@[1]); }
            assert("while"@ != "do"@) by { assert("while"@.len() != "do"@.len() || "while"@[0] != "do"@[0] || "while"@[1] != "do"@[1]); }
        },
        Keyword::Return => {
            assert("return"@ != "if"@) by { assert("return"@.len() != "if"@.len() || "return"@[0] != "if"@[0] || "return"@[1] != "if"@[1]); }
            assert("return"@ != "then"@) by { assert("return"@.len() != "then"@.len() || "return"@[0] != "then"@[0] || "return"@[1] != "then"@[1]); }
            assert("return"@ != "else"@) by { assert("return"@.len() != "else"@.len() || "return"@[0] != "else"@[0] || "return"@[1] != "else"@[1]); }
            assert("return"@ != "end"@) by { assert("return"@.len() != "end"@.len() || "return"@[0] != "end"@[0] || "return"@[1] != "end"@[1]); }
            assert("return"@ != "for"@) by { assert("return"@.len() != "for"@.len() || "return"@[0] != "for"@[0] || "return"@[1] != "for"@[1]); }
            assert("return"@ != "in"@) by { assert("return"@.len() != "in"@.len() || "return"@[0] != "in"@[0] || "return"@[1] != "in"@[1]); }
            assert("return"@ != "do"@) by { assert("return"@.len() != "do"@.len() || "return"@[0] != "do"@[0] || "return"@[1] != "do"@[1]); }
            assert("return"@ != "while"@) by { assert("return"@.len() != "while"@.len() || "return"@[0] != "while"@[0] || "return"@[1] != "while"@[1]); }
        },
        Keyword::Break => {
            assert("break"@ != "if"@) by { assert("break"@.len() != "if"@.len() || "break"@[0] != "if"@[0] || "break"@[1] != "if"@[1]); }
            assert("break"@ != "then"@) by { assert("break"@.len() != "then"@.len() || "break"@[0] != "then"@[0] || "break"@[1] != "then"@[1]); }
            assert("break"@ != "else"@) by { assert("break"@.len() != "else"@.len() || "break"@[0] != "else"@[0] || "break"@[1] != "else"@[1]); }
            assert("break"@ != "end"@) by { assert("break"@.len() != "end"@.len() || "break"@[0] != "end"@[0] || "break"@[1] != "end"@[1]); }
            assert("break"@ != "for"@) by { assert("break"@.len() != "for"@.len() || "break"@[0] != "for"@[0] || "break"@[1] != "for"@[1]); }
            assert("break"@ != "in"@) by { assert("break"@.len() != "in"@.len() || "break"@[0] != "in"@[0] || "break"@[1] != "in"@[1]); }
            assert("break"@ != "do"@) by { assert("break"@.len() != "do"@.len() || "break"@[0] != "do"@[0] || "break"@[1] != "do"@[1]); }
            assert("break"@ != "while"@) by { assert("break"@.len() != "while"@.len() || "break"@[0] != "while"@[0] || "break"@[1] != "while"@[1]); }
            assert("break"@ != "return"@) by { assert("break"@.len() != "return"@.len() || "break"@[0] != "return"@[0] || "break"@[1] != "return"@[1]); }
        },
        Keyword::Continue => {
            assert("continue"@ != "if"@) by { assert("continue"@.len() != "if"@.len() || "continue"@[0] != "if"@[0] || "continue"@[1] != "if"@[1]); }
            assert("continue"@ != "then"@) by { assert("continue"@.len() != "then"@.len() || "continue"@[0] != "then"@[0] || "continue"@[1] != "then"@[1]); }
            assert("continue"@ != "else"@) by { assert("continue"@.len() != "else"@.len() || "continue"@[0] != "else"@[0] || "continue"@[1] != "else"@[1]); }
            assert("continue"@ != "end"@) by { assert("continue"@.len() != "end"@.len() || "continue"@[0] != "end"@[0] || "continue"@[1] != "end"@[1]); }
            assert("continue"@ != "for"@) by { assert("continue"@.len() != "for"@.len() || "continue"@[0] != "for"@[0] || "continue"@[1] != "for"@[1]); }
            assert("continue"@ != "in"@) by { assert("continue"@.len() != "in"@.len() || "continue"@[0] != "in"@[0] || "continue"@[1] != "in"@[1]); }
            assert("continue"@ != "do"@) by { assert("continue"@.len() != "do"@.len() || "continue"@[0] != "do"@[0] || "continue"@[1] != "do"@[1]); }
            assert("continue"@ != "while"@) by { assert("continue"@.len() != "while"@.len() || "continue"@[0] != "while"@[0] || "continue"@[1] != "while"@[1]); }
            assert("continue"@ != "return"@) by { assert("continue"@.len() != "return"@.len() || "continue"@[0] != "return"@[0] || "continue"@[1] != "return"@[1]); }
            assert("continue"@ != "break"@) by { assert("continue"@.len() != "break"@.len() || "continue"@[0] != "break"@[0] || "continue"@[1] != "break"@[1]); }
        },
        Keyword::Let => {
            assert("let"@ != "if"@) by { assert("let"@.len() != "if"@.len() || "let"@[0] != "if"@[0] || "let"@[1] != "if"@[1]); }
            assert("let"@ != "then"@) by { assert("let"@.len() != "then"@.len() || "let"@[0] != "then"@[0] || "let"@[1] != "then"@[1]); }
            assert("let"@ != "else"@) by { assert("let"@.len() != "else"@.len() || "let"@[0] != "else"@[0] || "let"@[1] != "else"@[1]); }
            assert("let"@ != "end"@) by { assert("let"@.len() != "end"@.len() || "let"@[0] != "end"@[0] || "let"@[1] != "end"@[1]); }
            assert("let"@ != "for"@) by { assert("let"@.len() != "for"@.len() || "let"@[0] != "for"@[0] || "let"@[1] != "for"@[1]); }
            assert("let"@ != "in"@) by { assert("let"@.len() != "in"@.len() || "let"@[0] != "in"@[0] || "let"@[1] != "in"@[1]); }
            assert("let"@ != "do"@) by { assert("let"@.len() != "do"@.len() || "let"@[0] != "do"@[0] || "let"@[1] != "do"@[1]); }
            assert("let"@ != "while"@) by { assert("let"@.len() != "while"@.len() || "let"@[0] != "while"@[0] || "let"@[1] != "while"@[1]); }
            assert("let"@ != "return"@) by { assert("let"@.len() != "return"@.len() || "let"@[0] != "return"@[0] || "let"@[1] != "return"@[1]); }
            assert("let"@ != "break"@) by { assert("let"@.len() != "break"@.len() || "let"@[0] != "break"@[0] || "let"@[1] != "break"@[1]); }
            assert("let"@ != "continue"@) by { assert("let"@.len() != "continue"@.len() || "let"@[0] != "continue"@[0] || "let"@[1] != "continue"@[1]); }
        },
        Keyword::Fn => {
            assert("fn"@ != "if"@) by { assert("fn"@.len() != "if"@.len() || "fn"@[0] != "if"@[0] || "fn"@[1] != "if"@[1]); }
            assert("fn"@ != "then"@) by { assert("fn"@.len() != "then"@.len() || "fn"@[0] != "then"@[0] || "fn"@[1] != "then"@[1]); }
            assert("fn"@ != "else"@) by { assert("fn"@.len() != "else"@.len() || "fn"@[0] != "else"@[0] || "fn"@[1] != "else"@[1]); }
            assert("fn"@ != "end"@) by { assert("fn"@.len() != "end"@.len() || "fn"@[0] != "end"@[0] || "fn"@[1] != "end"@[1]); }
            assert("fn"@ != "for"@) by { assert("fn"@.len() != "for"@.len() || "fn"@[0] != "for"@[0] || "fn"@[1] != "for"@[1]); }
            assert("fn"@ != "in"@) by { assert("fn"@.len() != "in"@.len() || "fn"@[0] != "in"@[0] || "fn"@[1] != "in"@[1]); }
            assert("fn"@ != "do"@) by { assert("fn"@.len() != "do"@.len() || "fn"@[0] != "do"@[0] || "fn"@[1] != "do"@[1]); }
            assert("fn"@ != "while"@) by { assert("fn"@.len() != "while"@.len() || "fn"@[0] != "while"@[0] || "fn"@[1] != "while"@[1]); }
            assert("fn"@ != "return"@) by { assert("fn"@.len() != "return"@.len() || "fn"@[0] != "return"@[0] || "fn"@[1] != "return"@[1]); }
            assert("fn"@ != "break"@) by { assert("fn"@.len() != "break"@.len() || "fn"@[0] != "break"@[0] || "fn"@[1] != "break"@[1]); }
            assert("fn"@ != "continue"@) by { assert("fn"@.len() != "continue"@.len() || "fn"@[0] != "continue"@[0] || "fn"@[1] != "continue"@[1]); }
            assert("fn"@ != "let"@) by { assert("fn"@.len() != "let"@.len() || "fn"@[0] != "let"@[0] || "fn"@[1] != "let"@[1]); }
        },
        Keyword::Try => {
            assert("try"@ != "if"@) by { assert("try"@.len() != "if"@.len() || "try"@[0] != "if"@[0] || "try"@[1] != "if"@[1]); }
            assert("try"@ != "then"@) by { assert("try"@.len() != "then"@.len() || "try"@[0] != "then"@[0] || "try"@[1] != "then"@[1]); }
            assert("try"@ != "else"@) by { assert("try"@.len() != "else"@.len() || "try"@[0] != "else"@[0] || "try"@[1] != "else"@[1]); }
            assert("try"@ != "end"@) by { assert("try"@.len() != "end"@.len() || "try"@[0] != "end"@[0] || "try"@[1] != "end"@[1]); }
            assert("try"@ != "for"@) by { assert("try"@.len() != "for"@.len() || "try"@[0] != "for"@[0] || "try"@[1] != "for"@[1]); }
            assert("try"@ != "in"@) by { assert("try"@.len() != "in"@.len() || "try"@[0] != "in"@[0] || "try"@[1] != "in"@[1]); }
            assert("try"@ != "do"@) by { assert("try"@.len() != "do"@.len() || "try"@[0] != "do"@[0] || "try"@[1] != "do"@[1]); }
            assert("try"@ != "while"@) by { assert("try"@.len() != "while"@.len() || "try"@[0] != "while"@[0] || "try"@[1] != "while"@[1]); }
            assert("try"@ != "return"@) by { assert("try"@.len() != "return"@.len() || "try"@[0] != "return"@[0] || "try"@[1] != "return"@[1]); }
            assert("try"@ != "break"@) by { assert("try"@.len() != "break"@.len() || "try"@[0] != "break"@[0] || "try"@[1] != "break"@[1]); }
            assert("try"@ != "continue"@) by { assert("try"@.len() != "continue"@.len() || "try"@[0] != "continue"@[0] || "try"@[1] != "continue"@[1]); }
            assert("try"@ != "let"@) by { assert("try"@.len() != "let"@.len() || "try"@[0] != "let"@[0] || "try"@[1] != "let"@[1]); }
            assert("try"@ != "fn"@) by { assert("try"@.len() != "fn"@.len() || "try"@[0] != "fn"@[0] || "try"@[1] != "fn"@[1]); }
        },
        Keyword::Catch => {
            assert("catch"@ != "if"@) by { assert("catch"@.len() != "if"@.len() || "catch"@[0] != "if"@[0] || "catch"@[1] != "if"@[1]); }
            assert("catch"@ != "then"@) by { assert("catch"@.len() != "then"@.len() || "catch"@[0] != "then"@[0] || "catch"@[1] != "then"@[1]); }
            assert("catch"@ != "else"@) by { assert("catch"@.len() != "else"@.len() || "catch"@[0] != "else"@[0] || "catch"@[1] != "else"@[1]); }
            assert("catch"@ != "end"@) by { assert("catch"@.len() != "end"@.len() || "catch"@[0] != "end"@[0] || "catch"@[1] != "end"@[1]); }
            assert("catch"@ != "for"@) by { assert("catch"@.len() != "for"@.len() || "catch"@[0] != "for"@[0] || "catch"@[1] != "for"@[1]); }
            assert("catch"@ != "in"@) by { assert("catch"@.len() != "in"@.len() || "catch"@[0] != "in"@[0] || "catch"@[1] != "in"@[1]); }
            assert("catch"@ != "do"@) by { assert("catch"@.len() != "do"@.len() || "catch"@[0] != "do"@[0] || "catch"@[1] != "do"@[1]); }
            assert("catch"@ != "while"@) by { assert("catch"@.len() != "while"@.len() || "catch"@[0] != "while"@[0] || "catch"@[1] != "while"@[1]); }
            assert("catch"@ != "return"@) by { assert("catch"@.len() != "return"@.len() || "catch"@[0] != "return"@[0] || "catch"@[1] != "return"@[1]); }
            assert("catch"@ != "break"@) by { assert("catch"@.len() != "break"@.len() || "catch"@[0] != "break"@[0] || "catch"@[1] != "break"@[1]); }
            assert("catch"@ != "continue"@) by { assert("catch"@.len() != "continue"@.len() || "catch"@[0] != "continue"@[0] || "catch"@[1] != "continue"@[1]); }
            assert("catch"@ != "let"@) by { assert("catch"@.len() != "let"@.len() || "catch"@[0] != "let"@[0] || "catch"@[1] != "let"@[1]); }
            assert("catch"@ != "fn"@) by { assert("catch"@.len() != "fn"@.len() || "catch"@[0] != "fn"@[0] || "catch"@[1] != "fn"@[1]); }
            assert("catch"@ != "try"@) by { assert("catch"@.len() != "try"@.len() || "catch"@[0] != "try"@[0] || "catch"@[1] != "try"@[1]); }
        },
        Keyword::As => {
            assert("as"@ != "if"@) by { assert("as"@.len() != "if"@.len() || "as"@[0] != "if"@[0] || "as"@[1] != "if"@[1]); }
            assert("as"@ != "then"@) by { assert("as"@.len() != "then"@.len() || "as"@[0] != "then"@[0] || "as"@[1] != "then"@[1]); }
            assert("as"@ != "else"@) by { assert("as"@.len() != "else"@.len() || "as"@[0] != "else"@[0] || "as"@[1] != "else"@[1]); }
            assert("as"@ != "end"@) by { assert("as"@.len() != "end"@.len() || "as"@[0] != "end"@[0] || "as"@[1] != "end"@[1]); }
            assert("as"@ != "for"@) by { assert("as"@.len() != "for"@.len() || "as"@[0] != "for"@[0] || "as"@[1] != "for"@[1]); }
            assert("as"@ != "in"@) by { assert("as"@.len() != "in"@.len() || "as"@[0] != "in"@[0] || "as"@[1] != "in"@[1]); }
            assert("as"@ != "do"@) by { assert("as"@.len() != "do"@.len() || "as"@[0] != "do"@[0] || "as"@[1] != "do"@[1]); }
            assert("as"@ != "while"@) by { assert("as"@.len() != "while"@.len() || "as"@[0] != "while"@[0] || "as"@[1] != "while"@[1]); }
            assert("as"@ != "return"@) by { assert("as"@.len() != "return"@.len() || "as"@[0] != "return"@[0] || "as"@[1] != "return"@[1]); }
            assert("as"@ != "break"@) by { assert("as"@.len() != "break"@.len() || "as"@[0] != "break"@[0] || "as"@[1] != "break"@[1]); }
            assert("as"@ != "continue"@) by { assert("as"@.len() != "continue"@.len() || "as"@[0] != "continue"@[0] || "as"@[1] != "continue"@[1]); }
            assert("as"@ != "let"@) by { assert("as"@.len() != "let"@.len() || "as"@[0] != "let"@[0] || "as"@[1] != "let"@[1]); }
            assert("as"@ != "fn"@) by { assert("as"@.len() != "fn"@.len() || "as"@[0] != "fn"@[0] || "as"@[1] != "fn"@[1]); }
            assert("as"@ != "try"@) by { assert("as"@.len() != "try"@.len() || "as"@[0] != "try"@[0] || "as"@[1] != "try"@[1]); }
            assert("as"@ != "catch"@) by { assert("as"@.len() != "catch"@.len() || "as"@[0] != "catch"@[0] || "as"@[1] != "catch"@[1]); }
        },
        Keyword::Nil => {
            assert("nil"@ != "if"@) by { assert("nil"@.len() != "if"@.len() || "nil"@[0] != "if"@[0] || "nil"@[1] != "if"@[1]); }
            assert("nil"@ != "then"@) by { assert("nil"@.len() != "then"@.len() || "nil"@[0] != "then"@[0] || "nil"@[1] != "then"@[1]); }
            assert("nil"@ != "else"@) by { assert("nil"@.len() != "else"@.len() || "nil"@[0] != "else"@[0] || "nil"@[1] != "else"@[1]); }
            assert("nil"@ != "end"@) by { assert("nil"@.len() != "end"@.len() || "nil"@[0] != "end"@[0] || "nil"@[1] != "end"@[1]); }
            assert("nil"@ != "for"@) by { assert("nil"@.len() != "for"@.len() || "nil"@[0] != "for"@[0] || "nil"@[1] != "for"@[1]); }
            assert("nil"@ != "in"@) by { assert("nil"@.len() != "in"@.len() || "nil"@[0] != "in"@[0] || "nil"@[1] != "in"@[1]); }
            assert("nil"@ != "do"@) by { assert("nil"@.len() != "do"@.len() || "nil"@[0] != "do"@[0] || "nil"@[1] != "do"@[1]); }
            assert("nil"@ != "while"@) by { assert("nil"@.len() != "while"@.len() || "nil"@[0] != "while"@[0] || "nil"@[1] != "while"@[1]); }
            assert("nil"@ != "return"@) by { assert("nil"@.len() != "return"@.len() || "nil"@[0] != "return"@[0] || "nil"@[1] != "return"@[1]); }
            assert("nil"@ != "break"@) by { assert("nil"@.len() != "break"@.len() || "nil"@[0] != "break"@[0] || "nil"@[1] != "break"@[1]); }
            assert("nil"@ != "continue"@) by { assert("nil"@.len() != "continue"@.len() || "nil"@[0] != "continue"@[0] || "nil"@[1] != "continue"@[1]); }
            assert("nil"@ != "let"@) by { assert("nil"@.len() != "let"@.len() || "nil"@[0] != "let"@[0] || "nil"@[1] != "let"@[1]); }
            assert("nil"@ != "fn"@) by { assert("nil"@.len() != "fn"@.len() || "nil"@[0] != "fn"@[0] || "nil"@[1] != "fn"@[1]); }
            assert("nil"@ != "try"@) by { assert("nil"@.len() != "try"@.len() || "nil"@[0] != "try"@[0] || "nil"@[1] != "try"@[1]); }
            assert("nil"@ != "catch"@) by { assert("nil"@.len() != "catch"@.len() || "nil"@[0] != "catch"@[0] || "nil"@[1] != "catch"@[1]); }
            assert("nil"@ != "as"@) by { assert("nil"@.len() != "as"@.len() || "nil"@[0] != "as"@[0] || "nil"@[1] != "as"@[1]); }
        },
        Keyword::True => {
            assert("true"@ != "if"@) by { assert("true"@.len() != "if"@.len() || "true"@[0] != "if"@[0] || "true"@[1] != "if"@[1]); }
            assert("true"@ != "then"@) by { assert("true"@.len() != "then"@.len() || "true"@[0] != "then"@[0] || "true"@[1] != "then"@[1]); }
            assert("true"@ != "else"@) by { assert("true"@.len() != "else"@.len() || "true"@[0] != "else"@[0] || "true"@[1] != "else"@[1]); }
            assert("true"@ != "end"@) by { assert("true"@.len() != "end"@.len() || "true"@[0] != "end"@[0] || "true"@[1] != "end"@[1]); }
            assert("true"@ != "for"@) by { assert("true"@.len() != "for"@.len() || "true"@[0] != "for"@[0] || "true"@[1] != "for"@[1]); }
            assert("true"@ != "in"@) by { assert("true"@.len() != "in"@.len() || "true"@[0] != "in"@[0] || "true"@[1] != "in"@[1]); }
            assert("true"@ != "do"@) by { assert("true"@.len() != "do"@.len() || "true"@[0] != "do"@[0] || "true"@[1] != "do"@[1]); }
            assert("true"@ != "while"@) by { assert("true"@.len() != "while"@.len() || "true"@[0] != "while"@[0] || "true"@[1] != "while"@[1]); }
            assert("true"@ != "return"@) by { assert("true"@.len() != "return"@.len() || "true"@[0] != "return"@[0] || "true"@[1] != "return"@[1]); }
            assert("true"@ != "break"@) by { assert("true"@.len() != "break"@.len() || "true"@[0] != "break"@[0] || "true"@[1] != "break"@[1]); }
            assert("true"@ != "continue"@) by { assert("true"@.len() != "continue"@.len() || "true"@[0] != "continue"@[0] || "true"@[1] != "continue"@[1]); }
            assert("true"@ != "let"@) by { assert("true"@.len() != "let"@.len() || "true"@[0] != "let"@[0] || "true"@[1] != "let"@[1]); }
            assert("true"@ != "fn"@) by { assert("true"@.len() != "fn"@.len() || "true"@[0] != "fn"@[0] || "true"@[1] != "fn"@[1]); }
            assert("true"@ != "try"@) by { assert("true"@.len() != "try"@.len() || "true"@[0] != "try"@[0] || "true"@[1] != "try"@[1]); }
            assert("true"@ != "catch"@) by { assert("true"@.len() != "catch"@.len() || "true"@[0] != "catch"@[0] || "true"@[1] != "catch"@[1]); }
            assert("true"@ != "as"@) by { assert("true"@.len() != "as"@.len() || "true"@[0] != "as"@[0] || "true"@[1] != "as"@[1]); }
            assert("true"@ != "nil"@) by { assert("true"@.len() != "nil"@.len() || "true"@[0] != "nil"@[0] || "true"@[1] != "nil"@[1]); }
        },
        Keyword::False => {
            assert("false"@ != "if"@) by { assert("false"@.len() != "if"@.len() || "false"@[0] != "if"@[0] || "false"@[1] != "if"@[1]); }
            assert("false"@ != "then"@) by { assert("false"@.len() != "then"@.len() || "false"@[0] != "then"@[0] || "false"@[1] != "then"@[1]); }
            assert("false"@ != "else"@) by { assert("false"@.len() != "else"@.len() || "false"@[0] != "else"@[0] || "false"@[1] != "else"@[1]); }
            assert("false"@ != "end"@) by { assert("false"@.len() != "end"@.len() || "false"@[0] != "end"@[0] || "false"@[1] != "end"@[1]); }
            assert("false"@ != "for"@) by { assert("false"@.len() != "for"@.len() || "false"@[0] != "for"@[0] || "false"@[1] != "for"@[1]); }
            assert("false"@ != "in"@) by { assert("false"@.len() != "in"@.len() || "false"@[0] != "in"@[0] || "false"@[1] != "in"@[1]); }
            assert("false"@ != "do"@) by { assert("false"@.len() != "do"@.len() || "false"@[0] != "do"@[0] || "false"@[1] != "do"@[1]); }
            assert("false"@ != "while"@) by { assert("false"@.len() != "while"@.len() || "false"@[0] != "while"@[0] || "false"@[1] != "while"@[1]); }
            assert("false"@ != "return"@) by { assert("false"@.len() != "return"@.len() || "false"@[0] != "return"@[0] || "false"@[1] != "return"@[1]); }
            assert("false"@ != "break"@) by { assert("false"@.len() != "break"@.len() || "false"@[0] != "break"@[0] || "false"@[1] != "break"@[1]); }
            assert("false"@ != "continue"@) by { assert("false"@.len() != "continue"@.len() || "false"@[0] != "continue"@[0] || "false"@[1] != "continue"@[1]); }
            assert("false"@ != "let"@) by { assert("false"@.len() != "let"@.len() || "false"@[0] != "let"@[0] || "false"@[1] != "let"@[1]); }
            assert("false"@ != "fn"@) by { assert("false"@.len() != "fn"@.len() || "false"@[0] != "fn"@[0] || "false"@[1] != "fn"@[1]); }
            assert("false"@ != "try"@) by { assert("false"@.len() != "try"@.len() || "false"@[0] != "try"@[0] || "false"@[1] != "try"@[1]); }
            assert("false"@ != "catch"@) by { assert("false"@.len() != "catch"@.len() || "false"@[0] != "catch"@[0] || "false"@[1] != "catch"@[1]); }
            assert("false"@ != "as"@) by { assert("false"@.len() != "as"@.len() || "false"@[0] != "as"@[0] || "false"@[1] != "as"@[1]); }
            assert("false"@ != "nil"@) by { assert("false"@.len() != "nil"@.len() || "false"@[0] != "nil"@[0] || "false"@[1] != "nil"@[1]); }
            assert("false"@ != "true"@) by { assert("false"@.len() != "true"@.len() || "false"@[0] != "true"@[0] || "false"@[1] != "true"@[1]); }
        },
    }
}

/// Only a keyword's own text is read as that keyword.
pub proof fn law_keyword_text(t: Seq<char>, k: Keyword)
    requires
        keyword_of(t) == Some(k),
    ensures
        t == keyword_text(k),
{
    reveal_strlit("if");
    reveal_strlit("then");
    reveal_strlit("else");
    reveal_strlit("end");
    reveal_strlit("for");
    reveal_strlit("in");
    reveal_strlit("do");
    reveal_strlit("while");
    reveal_strlit("return");
    reveal_strlit("break");
    reveal_strlit("continue");
    reveal_strlit("let");
    reveal_strlit("fn");
    reveal_strlit("try");
    reveal_strlit("catch");
    reveal_strlit("as");
    reveal_strlit("nil");
    reveal_strlit("true");
    reveal_strlit("false");
}

/// An identifier or number token carries exactly the characters it spans.
pub proof fn law_token_text(s: Seq<char>, i: int)
    requires
        0 <= i <= s.len(),
    ensures
        lex_at(s, i) matches LexStep::Token(TokenView::Identifier(t), a, b) ==> a == i && t == s.subrange(a, b),
        lex_at(s, i) matches LexStep::Token(TokenView::Number(t), a, b) ==> a == i && t == s.subrange(a, b),
{
    if i < s.len() && s[i] == '"' {
        lemma_string_end(s, i, i + 1, Seq::empty());
    }
}

/// Reading never goes backwards: every token, and the end of file, lies
/// within the text and after the position reading started from.
pub proof fn law_lex_within(s: Seq<char>, i: int)
    requires
        0 <= i <= s.len(),
    ensures
        lex_at(s, skip_from(s, i, false)) matches LexStep::Token(v, a, b) ==> i <= a <= b <= s.len(),
        lex_at(s, skip_from(s, i, false)) matches LexStep::Error(_, _, a, b) ==> i <= a <= b <= s.len(),
{
    lemma_skip_bounds(s, i, false);
    lemma_lex_progress(s, skip_from(s, i, false));
    lemma_error_after(s, skip_from(s, i, false));
}

proof fn lemma_error_after(s: Seq<char>, i: int)
    requires
        0 <= i <= s.len(),
    ensures
        lex_at(s, i) matches LexStep::Error(_, _, a, b) ==> i <= a,
{
    if i < s.len() && s[i] == '"' {
        lemma_string_error_after(s, i, i + 1, Seq::empty());
    }
}

proof fn lemma_string_error_after(s: Seq<char>, open: int, j: int, acc: Seq<char>)
    requires
        0 <= open < j <= s.len(),
    ensures
        string_from(s, open, j, acc) matches LexStep::Error(_, _, a, b) ==> open <= a,
    decreases s.len() - j,
{
    if j < s.len() && !(s[j] == '\\' && j + 1 >= s.len()) && s[j] != '"' {
        if s[j] == '\\' {
            if escape_of(s[j + 1]) is Some {
                lemma_string_error_after(s, open, j + 2, acc.push(escape_of(s[j + 1])->0));
            }
        } else {
            lemma_string_error_after(s, open, j + 1, acc.push(s[j]));
        }
    }
}

} // verus!
