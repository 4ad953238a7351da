//! Tokenizer: classifies source text, character by character, into a flat
//! sequence of `Token` values terminated by exactly one end-of-input token.

use vstd::prelude::*;

verus! {

/// The smallest classified lexical unit of the source language.
///
/// Besides the tokens read from source text, the set holds structural
/// sentinels that only ever appear as labels inside the produced tree:
/// `Program`, `Block`, `Line`, `Arguments`, `Fields` and `Functions`.
#[derive(Debug, PartialEq, Eq, Hash, Default)]
pub enum Token {
    Number(i32),
    If,
    Else,
    Elif,
    While,
    Fn,
    Return,
    Arguments,
    Fields,
    Functions,
    Struct,
    Int,
    String,
    Float,
    List,
    Comma,
    Colon,
    DecimalPoint,
    #[default]
    Null,
    Identifier(String),
    Plus,
    Minus,
    Star,
    Slash,
    Equal,
    Bang,
    LessThan,
    GreaterThan,
    RightParen,
    LeftParen,
    RightSquareBracket,
    LeftSquareBracket,
    RightCurlyBracket,
    LeftCurlyBracket,
    DoubleEqual,
    NotEqual,
    LessThanOrEqual,
    GreaterThanOrEqual,
    Arrow,
    Program,
    Block,
    EOF,
    Line,
    SemiColon,
}

/// The mathematical model of a `Token`: identifiers carry their text as a
/// sequence of characters, numbers carry their unbounded integer value.
pub ghost enum TokenView {
    Number(int),
    If,
    Else,
    Elif,
    While,
    Fn,
    Return,
    Arguments,
    Fields,
    Functions,
    Struct,
    Int,
    String,
    Float,
    List,
    Comma,
    Colon,
    DecimalPoint,
    Null,
    Identifier(Seq<char>),
    Plus,
    Minus,
    Star,
    Slash,
    Equal,
    Bang,
    LessThan,
    GreaterThan,
    RightParen,
    LeftParen,
    RightSquareBracket,
    LeftSquareBracket,
    RightCurlyBracket,
    LeftCurlyBracket,
    DoubleEqual,
    NotEqual,
    LessThanOrEqual,
    GreaterThanOrEqual,
    Arrow,
    Program,
    Block,
    EOF,
    Line,
    SemiColon,
}

impl View for Token {
    type V = TokenView;

    open spec fn view(&self) -> TokenView {
        match self {
            Token::Number(n) => TokenView::Number(*n as int),
            Token::If => TokenView::If,
            Token::Else => TokenView::Else,
            Token::Elif => TokenView::Elif,
            Token::While => TokenView::While,
            Token::Fn => TokenView::Fn,
            Token::Return => TokenView::Return,
            Token::Arguments => TokenView::Arguments,
            Token::Fields => TokenView::Fields,
            Token::Functions => TokenView::Functions,
            Token::Struct => TokenView::Struct,
            Token::Int => TokenView::Int,
            Token::String => TokenView::String,
            Token::Float => TokenView::Float,
            Token::List => TokenView::List,
            Token::Comma => TokenView::Comma,
            Token::Colon => TokenView::Colon,
            Token::DecimalPoint => TokenView::DecimalPoint,
            Token::Null => TokenView::Null,
            Token::Identifier(s) => TokenView::Identifier(s@),
            Token::Plus => TokenView::Plus,
            Token::Minus => TokenView::Minus,
            Token::Star => TokenView::Star,
            Token::Slash => TokenView::Slash,
            Token::Equal => TokenView::Equal,
            Token::Bang => TokenView::Bang,
            Token::LessThan => TokenView::LessThan,
            Token::GreaterThan => TokenView::GreaterThan,
            Token::RightParen => TokenView::RightParen,
            Token::LeftParen => TokenView::LeftParen,
            Token::RightSquareBracket => TokenView::RightSquareBracket,
            Token::LeftSquareBracket => TokenView::LeftSquareBracket,
            Token::RightCurlyBracket => TokenView::RightCurlyBracket,
            Token::LeftCurlyBracket => TokenView::LeftCurlyBracket,
            Token::DoubleEqual => TokenView::DoubleEqual,
            Token::NotEqual => TokenView::NotEqual,
            Token::LessThanOrEqual => TokenView::LessThanOrEqual,
            Token::GreaterThanOrEqual => TokenView::GreaterThanOrEqual,
            Token::Arrow => TokenView::Arrow,
            Token::Program => TokenView::Program,
            Token::Block => TokenView::Block,
            Token::EOF => TokenView::EOF,
            Token::Line => TokenView::Line,
            Token::SemiColon => TokenView::SemiColon,
        }
    }
}

impl DeepView for Token {
    type V = TokenView;

    open spec fn deep_view(&self) -> TokenView {
        self.view()
    }
}

impl Clone for Token {
    fn clone(&self) -> (r: Token)
        ensures
            r == *self,
    {
        match self {
            Token::Number(n) => Token::Number(*n),
            Token::If => Token::If,
            Token::Else => Token::Else,
            Token::Elif => Token::Elif,
            Token::While => Token::While,
            Token::Fn => Token::Fn,
            Token::Return => Token::Return,
            Token::Arguments => Token::Arguments,
            Token::Fields => Token::Fields,
            Token::Functions => Token::Functions,
            Token::Struct => Token::Struct,
            Token::Int => Token::Int,
            Token::String => Token::String,
            Token::Float => Token::Float,
            Token::List => Token::List,
            Token::Comma => Token::Comma,
            Token::Colon => Token::Colon,
            Token::DecimalPoint => Token::DecimalPoint,
            Token::Null => Token::Null,
            Token::Identifier(s) => Token::Identifier(s.clone()),
            Token::Plus => Token::Plus,
            Token::Minus => Token::Minus,
            Token::Star => Token::Star,
            Token::Slash => Token::Slash,
            Token::Equal => Token::Equal,
            Token::Bang => Token::Bang,
            Token::LessThan => Token::LessThan,
            Token::GreaterThan => Token::GreaterThan,
            Token::RightParen => Token::RightParen,
            Token::LeftParen => Token::LeftParen,
            Token::RightSquareBracket => Token::RightSquareBracket,
            Token::LeftSquareBracket => Token::LeftSquareBracket,
            Token::RightCurlyBracket => Token::RightCurlyBracket,
            Token::LeftCurlyBracket => Token::LeftCurlyBracket,
            Token::DoubleEqual => Token::DoubleEqual,
            Token::NotEqual => Token::NotEqual,
            Token::LessThanOrEqual => Token::LessThanOrEqual,
            Token::GreaterThanOrEqual => Token::GreaterThanOrEqual,
            Token::Arrow => Token::Arrow,
            Token::Program => Token::Program,
            Token::Block => Token::Block,
            Token::EOF => Token::EOF,
            Token::Line => Token::Line,
            Token::SemiColon => Token::SemiColon,
        }
    }
}

/// Character access with NUL padding: positions at or past the end of the
/// text (and before its start) read as `'\0'`, the scanner's end marker.
pub open spec fn char_at(s: Seq<char>, i: int) -> char {
    if 0 <= i < s.len() {
        s[i]
    } else {
        '\0'
    }
}

/// Whitespace skipped between tokens: space, tab, newline, carriage return.
pub open spec fn is_space(c: char) -> bool {
    c == ' ' || c == '\t' || c == '\n' || c == '\r'
}

/// A letter that can start an identifier (ASCII only; every other character
/// is unrecognized and absorbed as a `Null` token).
pub open spec fn is_letter(c: char) -> bool {
    (97 <= c as u32 && c as u32 <= 122) || (65 <= c as u32 && c as u32 <= 90)
}

/// A character that can continue an identifier: a letter or an underscore.
pub open spec fn is_ident_char(c: char) -> bool {
    is_letter(c) || c == '_'
}

/// A decimal digit.
pub open spec fn is_digit_ch(c: char) -> bool {
    48 <= c as u32 && c as u32 <= 57
}

/// First position at or after `i` holding a non-whitespace character.
pub open spec fn skip_ws(s: Seq<char>, i: int) -> int
    decreases s.len() - i,
{
    if 0 <= i < s.len() && is_space(s[i]) {
        skip_ws(s, i + 1)
    } else {
        i
    }
}

/// First position at or after `i` that cannot continue an identifier.
pub open spec fn ident_end(s: Seq<char>, i: int) -> int
    decreases s.len() - i,
{
    if 0 <= i < s.len() && is_ident_char(s[i]) {
        ident_end(s, i + 1)
    } else {
        i
    }
}

/// First position at or after `i` holding a non-digit character.
pub open spec fn digit_end(s: Seq<char>, i: int) -> int
    decreases s.len() - i,
{
    if 0 <= i < s.len() && is_digit_ch(s[i]) {
        digit_end(s, i + 1)
    } else {
        i
    }
}

/// Decimal value of the digit run `s[i..j]`.
pub open spec fn num_value(s: Seq<char>, i: int, j: int) -> int
    decreases j - i,
{
    if i < j {
        num_value(s, i, j - 1) * 10 + (char_at(s, j - 1) as u32 - 48)
    } else {
        0
    }
}

/// Resolves a maximal identifier run against the fixed keyword table; a run
/// that equals no keyword keeps its text as an `Identifier` payload.
pub open spec fn kw_or_ident(w: Seq<char>) -> TokenView {
    if w == "if"@ {
        TokenView::If
    } else if w == "else"@ {
        TokenView::Else
    } else if w == "elif"@ {
        TokenView::Elif
    } else if w == "while"@ {
        TokenView::While
    } else if w == "fn"@ {
        TokenView::Fn
    } else if w == "return"@ {
        TokenView::Return
    } else if w == "int"@ {
        TokenView::Int
    } else if w == "string"@ {
        TokenView::String
    } else if w == "float"@ {
        TokenView::Float
    } else if w == "list"@ {
        TokenView::List
    } else if w == "struct"@ {
        TokenView::Struct
    } else {
        TokenView::Identifier(w)
    }
}

/// One scan step at position `i` (whitespace already skipped): the token
/// classified there and the position where the following scan starts.
///
/// A NUL (in particular, the padding past the end of the text) yields `EOF`.
/// A digit run whose value does not fit in an `i32` is a lexical
/// classification failure and is absorbed as one `Null` token, as is any
/// single unrecognized character.
pub open spec fn scan_at(s: Seq<char>, i: int) -> (TokenView, int) {
    let c = char_at(s, i);
    if c == '\0' {
        (TokenView::EOF, i + 1)
    } else if c == '(' {
        (TokenView::LeftParen, i + 1)
    } else if c == ')' {
        (TokenView::RightParen, i + 1)
    } else if c == '{' {
        (TokenView::LeftCurlyBracket, i + 1)
    } else if c == '}' {
        (TokenView::RightCurlyBracket, i + 1)
    } else if c == '[' {
        (TokenView::LeftSquareBracket, i + 1)
    } else if c == ']' {
        (TokenView::RightSquareBracket, i + 1)
    } else if c == ';' {
        (TokenView::SemiColon, i + 1)
    } else if c == '+' {
        (TokenView::Plus, i + 1)
    } else if c == ':' {
        (TokenView::Colon, i + 1)
    } else if c == '*' {
        (TokenView::Star, i + 1)
    } else if c == '/' {
        (TokenView::Slash, i + 1)
    } else if c == ',' {
        (TokenView::Comma, i + 1)
    } else if c == '.' {
        (TokenView::DecimalPoint, i + 1)
    } else if c == '-' {
        if char_at(s, i + 1) == '>' {
            (TokenView::Arrow, i + 2)
        } else {
            (TokenView::Minus, i + 1)
        }
    } else if c == '=' {
        if char_at(s, i + 1) == '=' {
            (TokenView::DoubleEqual, i + 2)
        } else {
            (TokenView::Equal, i + 1)
        }
    } else if c == '!' {
        if char_at(s, i + 1) == '=' {
            (TokenView::NotEqual, i + 2)
        } else {
            (TokenView::Bang, i + 1)
        }
    } else if c == '<' {
        if char_at(s, i + 1) == '=' {
            (TokenView::LessThanOrEqual, i + 2)
        } else {
            (TokenView::LessThan, i + 1)
        }
    } else if c == '>' {
        if char_at(s, i + 1) == '=' {
            (TokenView::GreaterThanOrEqual, i + 2)
        } else {
            (TokenView::GreaterThan, i + 1)
        }
    } else if is_letter(c) {
        (kw_or_ident(s.subrange(i, ident_end(s, i))), ident_end(s, i))
    } else if is_digit_ch(c) {
        let v = num_value(s, i, digit_end(s, i));
        if v <= i32::MAX {
            (TokenView::Number(v), digit_end(s, i))
        } else {
            (TokenView::Null, digit_end(s, i))
        }
    } else {
        (TokenView::Null, i + 1)
    }
}

pub proof fn lemma_skip_ws_bounds(s: Seq<char>, i: int)
    ensures
        i <= skip_ws(s, i),
        i <= s.len() ==> skip_ws(s, i) <= s.len(),
        !is_space(char_at(s, skip_ws(s, i))),
    decreases s.len() - i,
{
    if 0 <= i < s.len() && is_space(s[i]) {
        lemma_skip_ws_bounds(s, i + 1);
    }
}

pub proof fn lemma_ident_end_bounds(s: Seq<char>, i: int)
    ensures
        i <= ident_end(s, i),
        i <= s.len() ==> ident_end(s, i) <= s.len(),
        0 <= i < s.len() && is_ident_char(s[i]) ==> i + 1 <= ident_end(s, i),
    decreases s.len() - i,
{
    if 0 <= i < s.len() && is_ident_char(s[i]) {
        lemma_ident_end_bounds(s, i + 1);
    }
}

pub proof fn lemma_digit_end_bounds(s: Seq<char>, i: int)
    ensures
        i <= digit_end(s, i),
        i <= s.len() ==> digit_end(s, i) <= s.len(),
        0 <= i < s.len() && is_digit_ch(s[i]) ==> i + 1 <= digit_end(s, i),
    decreases s.len() - i,
{
    if 0 <= i < s.len() && is_digit_ch(s[i]) {
        lemma_digit_end_bounds(s, i + 1);
    }
}

/// Every character of a maximal digit run is a digit.
pub proof fn lemma_digit_run(s: Seq<char>, i: int, k: int)
    requires
        0 <= i <= k < digit_end(s, i),
    ensures
        is_digit_ch(char_at(s, k)),
    decreases k - i,
{
    lemma_digit_end_bounds(s, i);
    if i < k {
        lemma_digit_run(s, i + 1, k);
    }
}

/// Within a maximal digit run, the value of a digit prefix is nonnegative
/// and grows (weakly) as the prefix grows.
pub proof fn lemma_num_value_mono(s: Seq<char>, i: int, j: int, m: int)
    requires
        0 <= i <= j <= m <= digit_end(s, i),
    ensures
        0 <= num_value(s, i, j) <= num_value(s, i, m),
    decreases m - i,
{
    if i < m {
        lemma_digit_run(s, i, m - 1);
        if j < m {
            lemma_num_value_mono(s, i, j, m - 1);
        } else {
            lemma_num_value_mono(s, i, j - 1, m - 1);
        }
        assert(num_value(s, i, m) == num_value(s, i, m - 1) * 10 + (char_at(s, m - 1) as u32
            - 48));
        assert(num_value(s, i, m - 1) * 10 >= num_value(s, i, m - 1));
    }
}

/// A scan step that does not produce `EOF` strictly advances the cursor and
/// stays inside the text.
pub proof fn lemma_scan_at_advances(s: Seq<char>, i: int)
    ensures
        !(scan_at(s, i).0 is EOF) ==> i + 1 <= scan_at(s, i).1 <= s.len(),
        scan_at(s, i).0 is EOF ==> scan_at(s, i).1 == i + 1,
{
    let c = char_at(s, i);
    if c != '\0' {
        assert(0 <= i < s.len());
        if is_letter(c) {
            lemma_ident_end_bounds(s, i);
        } else if is_digit_ch(c) {
            lemma_digit_end_bounds(s, i);
        }
    }
}

/// The token sequence the tokenizer produces for the text `s`, scanning from
/// position `p`: one classified token per scan step, ending at the first
/// `EOF`.
pub open spec fn lex_spec(s: Seq<char>, p: int) -> Seq<TokenView>
    decreases s.len() - p,
    via lex_spec_decreases
{
    let i = skip_ws(s, p);
    let t = scan_at(s, i).0;
    if t is EOF {
        seq![TokenView::EOF]
    } else {
        seq![t] + lex_spec(s, scan_at(s, i).1)
    }
}

#[via_fn]
proof fn lex_spec_decreases(s: Seq<char>, p: int) {
    lemma_skip_ws_bounds(s, p);
    lemma_scan_at_advances(s, skip_ws(s, p));
}

/// The token sequence of any text is nonempty, ends with the end-of-input
/// token, and contains it exactly once.
pub proof fn lemma_lex_ends_with_eof(s: Seq<char>, p: int)
    ensures
        lex_spec(s, p).len() >= 1,
        lex_spec(s, p).last() == TokenView::EOF,
        forall|k: int| 0 <= k < lex_spec(s, p).len() - 1 ==> !(#[trigger] lex_spec(s, p)[k] is EOF),
    decreases s.len() - p,
{
    let i = skip_ws(s, p);
    let t = scan_at(s, i).0;
    if !(t is EOF) {
        lemma_skip_ws_bounds(s, p);
        lemma_scan_at_advances(s, i);
        lemma_lex_ends_with_eof(s, scan_at(s, i).1);
    }
}

/// Re-tokenizing identical input is deterministic: the tokenizer's result is
/// a function of the text alone, so two token sequences produced for the same
/// text are the same sequence.
pub proof fn lemma_tokenize_deterministic(s: Seq<char>, t1: Seq<TokenView>, t2: Seq<TokenView>)
    requires
        t1 == lex_spec(s, 0),
        t2 == lex_spec(s, 0),
    ensures
        t1 == t2,
{
}

fn exec_is_space(c: char) -> (r: bool)
    ensures
        r == is_space(c),
{
    c == ' ' || c == '\t' || c == '\n' || c == '\r'
}

fn exec_is_letter(c: char) -> (r: bool)
    ensures
        r == is_letter(c),
{
    let u = c as u32;
    (97 <= u && u <= 122) || (65 <= u && u <= 90)
}

fn exec_is_ident_char(c: char) -> (r: bool)
    ensures
        r == is_ident_char(c),
{
    exec_is_letter(c) || c == '_'
}

fn exec_is_digit(c: char) -> (r: bool)
    ensures
        r == is_digit_ch(c),
{
    let u = c as u32;
    48 <= u && u <= 57
}

/// Character-wise string equality, decided without any trusted call.
fn str_eq(a: &str, b: &str) -> (r: bool)
    ensures
        r == (a@ == b@),
{
    let la = a.unicode_len();
    let lb = b.unicode_len();
    if la != lb {
        return false;
    }
    let mut k: usize = 0;
    while k < la
        invariant
            la == a@.len(),
            lb == b@.len(),
            la == lb,
            k <= la,
            forall|j: int| 0 <= j < k ==> a@[j] == b@[j],
        decreases la - k,
    {
        if a.get_char(k) != b.get_char(k) {
            return false;
        }
        k = k + 1;
    }
    proof {
        assert(a@ =~= b@);
    }
    true
}

/// The tokenizer's cursor over one text buffer, with one-character lookahead.
pub struct Lexer {
    input: String,
    position: usize,
    read_position: usize,
    ch: char,
}

impl Lexer {
    /// The text being scanned.
    pub closed spec fn text(self) -> Seq<char> {
        self.input@
    }

    /// Position of the character the scanner currently looks at.
    pub closed spec fn pos(self) -> int {
        self.position as int
    }

    /// Position the next `read_char` will read from.
    pub closed spec fn rpos(self) -> int {
        self.read_position as int
    }

    /// The character the scanner currently looks at (NUL at end of input).
    pub closed spec fn cur(self) -> char {
        self.ch
    }

    /// Cursor well-formedness: the current character mirrors the current
    /// position, and the read position is one past it, or equal to it right
    /// after a scan routine restored the cursor by one ("one-back").
    pub open spec fn wf(self) -> bool {
        &&& self.text().len() + 3 <= usize::MAX
        &&& self.pos() <= self.text().len() + 1
        &&& (self.rpos() == self.pos() || self.rpos() == self.pos() + 1)
        &&& self.cur() == char_at(self.text(), self.pos())
    }

    /// A fresh cursor over the text, already looking at its first character.
    pub fn new(input: String) -> (l: Lexer)
        requires
            input@.len() + 3 <= usize::MAX,
        ensures
            l.wf(),
            l.text() == input@,
            l.pos() == 0,
            l.rpos() == 1,
    {
        let mut l = Lexer { input, position: 0, read_position: 0, ch: '\0' };
        l.read_char();
        l
    }

    /// Advances the cursor one character; at or past the end of the text the
    /// current character becomes NUL.
    pub fn read_char(&mut self)
        requires
            old(self).text().len() + 3 <= usize::MAX,
            old(self).rpos() <= old(self).text().len() + 1,
        ensures
            final(self).text() == old(self).text(),
            final(self).pos() == old(self).rpos(),
            final(self).rpos() == old(self).rpos() + 1,
            final(self).cur() == char_at(final(self).text(), final(self).pos()),
    {
        if self.read_position >= self.input.as_str().unicode_len() {
            self.ch = '\0';
        } else {
            self.ch = self.input.as_str().get_char(self.read_position);
        }
        self.position = self.read_position;
        self.read_position = self.read_position + 1;
    }

    /// The character one past the current position (NUL at end of input),
    /// without moving the cursor.
    pub fn peek_char(&self) -> (c: char)
        ensures
            c == char_at(self.text(), self.rpos()),
    {
        if self.read_position >= self.input.as_str().unicode_len() {
            '\0'
        } else {
            self.input.as_str().get_char(self.read_position)
        }
    }

    /// Skips whitespace before a token; never emits anything.
    pub fn skip_whitespace(&mut self)
        requires
            old(self).wf(),
        ensures
            final(self).wf(),
            final(self).text() == old(self).text(),
            final(self).pos() == skip_ws(final(self).text(), old(self).pos()),
            old(self).rpos() == old(self).pos() + 1 ==> final(self).rpos() == final(self).pos()
                + 1,
    {
        while exec_is_space(self.ch)
            invariant
                self.wf(),
                self.text() == old(self).text(),
                old(self).pos() <= self.pos(),
                skip_ws(self.text(), self.pos()) == skip_ws(self.text(), old(self).pos()),
                old(self).rpos() == old(self).pos() + 1 ==> self.rpos() == self.pos() + 1,
                is_space(self.cur()) ==> self.pos() < self.text().len(),
            decreases 2 * (self.text().len() - self.pos()) + (self.pos() + 1 - self.rpos()),
        {
            self.read_char();
        }
    }

    /// Consumes the maximal identifier run starting at the current position
    /// and returns its text, restoring the cursor one back so the driving
    /// loop's trailing advance lands on the first character after the run.
    pub fn read_identifier(&mut self) -> (r: String)
        requires
            old(self).wf(),
            old(self).rpos() == old(self).pos() + 1,
            old(self).pos() <= old(self).text().len(),
        ensures
            final(self).wf(),
            final(self).text() == old(self).text(),
            final(self).pos() == ident_end(final(self).text(), old(self).pos()),
            final(self).rpos() == final(self).pos(),
            r@ == final(self).text().subrange(old(self).pos(), final(self).pos()),
    {
        let position = self.position;
        while exec_is_ident_char(self.ch)
            invariant
                self.wf(),
                self.text() == old(self).text(),
                self.rpos() == self.pos() + 1,
                position == old(self).position,
                old(self).pos() <= self.pos() <= self.text().len(),
                ident_end(self.text(), self.pos()) == ident_end(self.text(), old(self).pos()),
                is_ident_char(self.cur()) ==> self.pos() < self.text().len(),
            decreases self.text().len() - self.pos(),
        {
            self.read_char();
        }
        proof {
            lemma_ident_end_bounds(self.text(), old(self).pos());
        }
        self.read_position = self.read_position - 1;
        let s = self.input.as_str().substring_char(position, self.position);
        String::from_str(s)
    }

    /// Consumes the maximal digit run starting at the current position and
    /// returns its decimal value, with the same one-back cursor discipline as
    /// `read_identifier`. The run's value must fit in an `i32`; `next_token`
    /// checks that before calling (and absorbs an overflowing run as `Null`).
    pub fn read_number(&mut self) -> (r: i32)
        requires
            old(self).wf(),
            old(self).rpos() == old(self).pos() + 1,
            old(self).pos() <= old(self).text().len(),
            num_value(old(self).text(), old(self).pos(), digit_end(old(self).text(), old(self).pos()))
                <= i32::MAX,
        ensures
            final(self).wf(),
            final(self).text() == old(self).text(),
            final(self).pos() == digit_end(final(self).text(), old(self).pos()),
            final(self).rpos() == final(self).pos(),
            r as int == num_value(final(self).text(), old(self).pos(), final(self).pos()),
    {
        proof {
            lemma_digit_end_bounds(old(self).text(), old(self).pos());
            lemma_num_value_mono(
                old(self).text(),
                old(self).pos(),
                old(self).pos(),
                digit_end(old(self).text(), old(self).pos()),
            );
        }
        let r = self.read_number_checked();
        match r {
            Some(v) => v,
            None => {
                proof {
                    assert(false);
                }
                0
            },
        }
    }

    /// Like `read_number`, but reports an overflowing run as `None` instead
    /// of requiring the caller to rule it out.
    fn read_number_checked(&mut self) -> (r: Option<i32>)
        requires
            old(self).wf(),
            old(self).rpos() == old(self).pos() + 1,
            old(self).pos() <= old(self).text().len(),
        ensures
            final(self).wf(),
            final(self).text() == old(self).text(),
            final(self).pos() == digit_end(final(self).text(), old(self).pos()),
            final(self).rpos() == final(self).pos(),
            num_value(final(self).text(), old(self).pos(), final(self).pos()) <= i32::MAX ==> r
                == Some(num_value(final(self).text(), old(self).pos(), final(self).pos()) as i32),
            num_value(final(self).text(), old(self).pos(), final(self).pos()) > i32::MAX ==> r
                is None,
    {
        let ghost start = old(self).pos();
        let ghost de = digit_end(old(self).text(), old(self).pos());
        let mut val: i32 = 0;
        let mut over: bool = false;
        proof {
            lemma_digit_end_bounds(self.text(), start);
        }
        while exec_is_digit(self.ch)
            invariant
                self.wf(),
                self.text() == old(self).text(),
                self.rpos() == self.pos() + 1,
                start <= self.pos() <= de <= self.text().len(),
                de == digit_end(self.text(), self.pos()),
                de == digit_end(self.text(), start),
                is_digit_ch(self.cur()) ==> self.pos() < self.text().len(),
                !over ==> val as int == num_value(self.text(), start, self.pos()),
                over ==> num_value(self.text(), start, de) > i32::MAX,
                0 <= val,
            decreases self.text().len() - self.pos(),
        {
            let d = (self.ch as u32 - 48) as i32;
            proof {
                lemma_digit_end_bounds(self.text(), self.pos());
                assert(digit_end(self.text(), self.pos()) == digit_end(
                    self.text(),
                    self.pos() + 1,
                ));
            }
            if !over {
                if val <= (i32::MAX - d) / 10 {
                    proof {
                        lemma_num_value_mono(self.text(), start, self.pos() + 1, de);
                        assert(num_value(self.text(), start, self.pos() + 1) == val * 10 + d);
                    }
                    val = val * 10 + d;
                } else {
                    proof {
                        assert(val * 10 + d > i32::MAX) by {
                            assert(val >= (i32::MAX - d) / 10 + 1);
                            assert((val) * 10 >= ((i32::MAX - d) / 10 + 1) * 10);
                        }
                        assert(num_value(self.text(), start, self.pos() + 1) == val * 10 + d);
                        lemma_num_value_mono(self.text(), start, self.pos() + 1, de);
                    }
                    over = true;
                }
            }
            self.read_char();
        }
        proof {
            assert(self.pos() == de);
        }
        self.read_position = self.read_position - 1;
        if over {
            proof {
                lemma_num_value_mono(self.text(), start, de, de);
            }
            None
        } else {
            Some(val)
        }
    }

    /// Skips whitespace, classifies one token at the cursor, and leaves the
    /// cursor on the first character after it. Yields `EOF` at the end of the
    /// text, after which the driving loop stops and the tokenizer is not
    /// invoked again.
    pub fn next_token(&mut self) -> (t: Token)
        requires
            old(self).wf(),
            old(self).rpos() == old(self).pos() + 1,
            old(self).pos() <= old(self).text().len(),
        ensures
            final(self).wf(),
            final(self).text() == old(self).text(),
            final(self).rpos() == final(self).pos() + 1,
            t@ == scan_at(final(self).text(), skip_ws(final(self).text(), old(self).pos())).0,
            final(self).pos() == scan_at(
                final(self).text(),
                skip_ws(final(self).text(), old(self).pos()),
            ).1,
            !(t@ is EOF) ==> final(self).pos() <= final(self).text().len(),
    {
        self.skip_whitespace();
        proof {
            lemma_skip_ws_bounds(self.text(), old(self).pos());
            lemma_ident_end_bounds(self.text(), self.pos());
            lemma_digit_end_bounds(self.text(), self.pos());
            lemma_num_value_mono(
                self.text(),
                self.pos(),
                self.pos(),
                digit_end(self.text(), self.pos()),
            );
        }
        let c = self.ch;
        let tok: Token;
        if c == '(' {
            tok = Token::LeftParen;
        } else if c == ')' {
            tok = Token::RightParen;
        } else if c == '{' {
            tok = Token::LeftCurlyBracket;
        } else if c == '}' {
            tok = Token::RightCurlyBracket;
        } else if c == '[' {
            tok = Token::LeftSquareBracket;
        } else if c == ']' {
            tok = Token::RightSquareBracket;
        } else if c == ';' {
            tok = Token::SemiColon;
        } else if c == '+' {
            tok = Token::Plus;
        } else if c == ':' {
            tok = Token::Colon;
        } else if c == '*' {
            tok = Token::Star;
        } else if c == '/' {
            tok = Token::Slash;
        } else if c == ',' {
            tok = Token::Comma;
        } else if c == '.' {
            tok = Token::DecimalPoint;
        } else if c == '-' {
            if self.peek_char() == '>' {
                self.read_char();
                tok = Token::Arrow;
            } else {
                tok = Token::Minus;
            }
        } else if c == '=' {
            if self.peek_char() == '=' {
                self.read_char();
                tok = Token::DoubleEqual;
            } else {
                tok = Token::Equal;
            }
        } else if c == '!' {
            if self.peek_char() == '=' {
                self.read_char();
                tok = Token::NotEqual;
            } else {
                tok = Token::Bang;
            }
        } else if c == '<' {
            if self.peek_char() == '=' {
                self.read_char();
                tok = Token::LessThanOrEqual;
            } else {
                tok = Token::LessThan;
            }
        } else if c == '>' {
            if self.peek_char() == '=' {
                self.read_char();
                tok = Token::GreaterThanOrEqual;
            } else {
                tok = Token::GreaterThan;
            }
        } else if c == '\0' {
            tok = Token::EOF;
        } else if exec_is_letter(c) {
            let ident = self.read_identifier();
            if str_eq(ident.as_str(), "if") {
                tok = Token::If;
            } else if str_eq(ident.as_str(), "else") {
                tok = Token::Else;
            } else if str_eq(ident.as_str(), "elif") {
                tok = Token::Elif;
            } else if str_eq(ident.as_str(), "while") {
                tok = Token::While;
            } else if str_eq(ident.as_str(), "fn") {
                tok = Token::Fn;
            } else if str_eq(ident.as_str(), "return") {
                tok = Token::Return;
            } else if str_eq(ident.as_str(), "int") {
                tok = Token::Int;
            } else if str_eq(ident.as_str(), "string") {
                tok = Token::String;
            } else if str_eq(ident.as_str(), "float") {
                tok = Token::Float;
            } else if str_eq(ident.as_str(), "list") {
                tok = Token::List;
            } else if str_eq(ident.as_str(), "struct") {
                tok = Token::Struct;
            } else {
                tok = Token::Identifier(ident);
            }
        } else if exec_is_digit(c) {
            match self.read_number_checked() {
                Some(v) => {
                    tok = Token::Number(v);
                },
                None => {
                    tok = Token::Null;
                },
            }
        } else {
            tok = Token::Null;
        }
        self.read_char();
        tok
    }
}

/// Runs the tokenizer over the whole text: the token sequence of the text,
/// ending with its single end-of-input token.
pub fn tokenize(input: String) -> (toks: Vec<Token>)
    requires
        input@.len() + 3 <= usize::MAX,
    ensures
        toks.deep_view() == lex_spec(input@, 0),
        toks@.len() >= 1,
        toks@.last()@ == TokenView::EOF,
        forall|k: int| 0 <= k < toks@.len() - 1 ==> !(#[trigger] toks@[k]@ is EOF),
{
    let ghost s = input@;
    let mut lexer = Lexer::new(input);
    let mut toks: Vec<Token> = Vec::new();
    let mut done = false;
    while !done
        invariant
            lexer.text() == s,
            done ==> toks.deep_view() == lex_spec(s, 0),
            !done ==> lexer.wf() && lexer.rpos() == lexer.pos() + 1 && lexer.pos() <= s.len(),
            !done ==> toks.deep_view() + lex_spec(s, lexer.pos()) == lex_spec(s, 0),
            !done ==> forall|k: int| 0 <= k < toks@.len() ==> !(#[trigger] toks@[k]@ is EOF),
            done ==> forall|k: int| 0 <= k < toks@.len() - 1 ==> !(#[trigger] toks@[k]@ is EOF),
            done ==> toks@.len() >= 1 && toks@.last()@ == TokenView::EOF,
        decreases (if lexer.pos() <= s.len() {
            s.len() - lexer.pos()
        } else {
            0int
        }) + (if done {
            0int
        } else {
            1int
        }),
    {
        let ghost p = lexer.pos();
        let tok = lexer.next_token();
        proof {
            lemma_skip_ws_bounds(s, p);
            lemma_scan_at_advances(s, skip_ws(s, p));
        }
        let is_eof = matches!(tok, Token::EOF);
        proof {
            assert(is_eof == (tok@ is EOF));
        }
        let ghost old_toks = toks.deep_view();
        toks.push(tok);
        proof {
            assert(toks.deep_view() =~= old_toks.push(tok@));
            assert(lex_spec(s, p) == if tok@ is EOF {
                seq![TokenView::EOF]
            } else {
                seq![tok@] + lex_spec(s, lexer.pos())
            });
            if is_eof {
                assert(old_toks.push(tok@) =~= old_toks + lex_spec(s, p));
            } else {
                assert(old_toks.push(tok@) + lex_spec(s, lexer.pos()) =~= old_toks + lex_spec(
                    s,
                    p,
                ));
            }
        }
        if is_eof {
            done = true;
        }
    }
    proof {
        lemma_lex_ends_with_eof(s, 0);
        assert(toks@.last()@ == toks.deep_view().last());
    }
    toks
}

} // verus!
