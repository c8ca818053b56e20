//! Lexical analysis: source text to a sequence of tokens or lexing failures.
//!
//! The recognized classes are decimal numerals (with optional fraction and
//! exponent), double-quoted string literals with escape sequences,
//! identifiers, the keywords `true`, `false` and `nil`, one- and
//! two-character operators, and parentheses.  Whitespace (space, tab,
//! newline) is skipped.  Any character matching no class yields
//! `NonAsciiCharacter`; a numeral whose conversion overflows yields
//! `InvalidInteger`.

use vstd::prelude::*;
use vstd::std_specs::iter::IteratorSpec;

use crate::number::{numeral_bits, parse_numeral, INFINITY_BITS};

verus! {

broadcast use vstd::string::group_string_axioms;

/// A failure of the lexer.
#[derive(Debug, PartialEq)]
pub enum LexingError {
    /// A numeral that does not convert to a number; the payload names the
    /// reason (`"overflow"` for a numeral rounding to infinity).
    InvalidInteger(String),
    /// A character that starts no token class.
    NonAsciiCharacter,
}

/// The individual tokens the lexer constructs.
#[derive(Debug, PartialEq)]
pub enum Token {
    /// A numeric literal, as the IEEE-754 binary64 bit pattern it denotes.
    Number(u64),
    /// A string literal: the quoted text with every `"` character removed
    /// (escape sequences are kept as written).
    String(String),
    /// An identifier: one or more letters or underscores.
    Ident(String),
    // Math operators
    Plus,
    Minus,
    Mult,
    Div,
    // Equality
    True,
    False,
    Equal,
    Bang,
    NEqual,
    Less,
    Greater,
    /// Greater than or equal.
    GEqual,
    /// Less than or equal.
    LEqual,
    /// Double equal.
    DEqual,
    // Grouping
    LParen,
    RParen,
    // Other
    Nil,
}

impl Clone for Token {
    /// Cloning a token yields an equal token.
    fn clone(&self) -> (res: Self)
        ensures
            res == *self,
    {
        match self {
            Token::Number(n) => Token::Number(*n),
            Token::String(s) => Token::String(s.clone()),
            Token::Ident(s) => Token::Ident(s.clone()),
            Token::Plus => Token::Plus,
            Token::Minus => Token::Minus,
            Token::Mult => Token::Mult,
            Token::Div => Token::Div,
            Token::True => Token::True,
            Token::False => Token::False,
            Token::Equal => Token::Equal,
            Token::Bang => Token::Bang,
            Token::NEqual => Token::NEqual,
            Token::Less => Token::Less,
            Token::Greater => Token::Greater,
            Token::GEqual => Token::GEqual,
            Token::LEqual => Token::LEqual,
            Token::DEqual => Token::DEqual,
            Token::LParen => Token::LParen,
            Token::RParen => Token::RParen,
            Token::Nil => Token::Nil,
        }
    }
}

impl Clone for LexingError {
    /// Cloning a failure yields an equal failure.
    fn clone(&self) -> (res: Self)
        ensures
            res == *self,
    {
        match self {
            LexingError::InvalidInteger(s) => LexingError::InvalidInteger(s.clone()),
            LexingError::NonAsciiCharacter => LexingError::NonAsciiCharacter,
        }
    }
}

/// The mathematical shape of a token: string payloads abstracted to
/// character sequences.
pub enum TokenM {
    Number(u64),
    String(Seq<char>),
    Ident(Seq<char>),
    Plus,
    Minus,
    Mult,
    Div,
    True,
    False,
    Equal,
    Bang,
    NEqual,
    Less,
    Greater,
    GEqual,
    LEqual,
    DEqual,
    LParen,
    RParen,
    Nil,
}

/// The mathematical shape of a lexing failure.
pub enum LexingErrorM {
    InvalidInteger(Seq<char>),
    NonAsciiCharacter,
}

impl View for Token {
    type V = TokenM;

    open spec fn view(&self) -> TokenM {
        match self {
            Token::Number(n) => TokenM::Number(*n),
            Token::String(s) => TokenM::String(s@),
            Token::Ident(s) => TokenM::Ident(s@),
            Token::Plus => TokenM::Plus,
            Token::Minus => TokenM::Minus,
            Token::Mult => TokenM::Mult,
            Token::Div => TokenM::Div,
            Token::True => TokenM::True,
            Token::False => TokenM::False,
            Token::Equal => TokenM::Equal,
            Token::Bang => TokenM::Bang,
            Token::NEqual => TokenM::NEqual,
            Token::Less => TokenM::Less,
            Token::Greater => TokenM::Greater,
            Token::GEqual => TokenM::GEqual,
            Token::LEqual => TokenM::LEqual,
            Token::DEqual => TokenM::DEqual,
            Token::LParen => TokenM::LParen,
            Token::RParen => TokenM::RParen,
            Token::Nil => TokenM::Nil,
        }
    }
}

impl View for LexingError {
    type V = LexingErrorM;

    open spec fn view(&self) -> LexingErrorM {
        match self {
            LexingError::InvalidInteger(s) => LexingErrorM::InvalidInteger(s@),
            LexingError::NonAsciiCharacter => LexingErrorM::NonAsciiCharacter,
        }
    }
}

// ---------------------------------------------------------------------------
// Character classes
// ---------------------------------------------------------------------------
/// Whitespace the lexer skips: space, tab, newline.
pub open spec fn is_ws(c: char) -> bool {
    c == ' ' || c == '\t' || c == '\n'
}

/// A decimal digit.
pub open spec fn is_digit(c: char) -> bool {
    '0' as u32 <= c as u32 && c as u32 <= '9' as u32
}

/// A letter or underscore, the identifier characters.
pub open spec fn is_alpha(c: char) -> bool {
    ('a' as u32 <= c as u32 && c as u32 <= 'z' as u32) || ('A' as u32 <= c as u32 && c as u32
        <= 'Z' as u32) || c == '_'
}

/// A character that may follow a backslash as a one-character escape.
pub open spec fn is_simple_escape(c: char) -> bool {
    c == '"' || c == '\\' || c == 'b' || c == 'n' || c == 'f' || c == 'r' || c == 't' || c == '/'
}

/// A hexadecimal digit, as in a `\uXXXX` escape.
pub open spec fn is_hex(c: char) -> bool {
    is_digit(c) || ('a' as u32 <= c as u32 && c as u32 <= 'f' as u32) || ('A' as u32 <= c as u32
        && c as u32 <= 'F' as u32)
}

// ---------------------------------------------------------------------------
// The token grammar, as functions over the character sequence
// ---------------------------------------------------------------------------
/// The index of the first character at or after `i` that is not a digit.
pub open spec fn digits_end(s: Seq<char>, i: int) -> int
    decreases s.len() - i,
{
    if 0 <= i < s.len() && is_digit(s[i]) {
        digits_end(s, i + 1)
    } else {
        i
    }
}

/// The index of the first character at or after `i` that is not an
/// identifier character.
pub open spec fn ident_end(s: Seq<char>, i: int) -> int
    decreases s.len() - i,
{
    if 0 <= i < s.len() && is_alpha(s[i]) {
        ident_end(s, i + 1)
    } else {
        i
    }
}

/// The end of the numeral starting at `i` (which must hold a digit): an
/// integer part (`0`, or digits without a leading zero), an optional
/// fraction (`.` followed by at least one digit), and an optional exponent
/// (`e`/`E`, an optional sign, and at least one digit).  Longest match: a
/// fraction or exponent that does not fit this shape is left unconsumed.
pub open spec fn numeral_end(s: Seq<char>, i: int) -> int {
    let int_end = if s[i] == '0' {
        i + 1
    } else {
        digits_end(s, i)
    };
    let frac_end = if int_end < s.len() && s[int_end] == '.' && int_end + 1 < s.len() && is_digit(
        s[int_end + 1],
    ) {
        digits_end(s, int_end + 1)
    } else {
        int_end
    };
    if frac_end < s.len() && (s[frac_end] == 'e' || s[frac_end] == 'E') {
        let digit_start = if frac_end + 1 < s.len() && (s[frac_end + 1] == '+' || s[frac_end + 1]
            == '-') {
            frac_end + 2
        } else {
            frac_end + 1
        };
        if digit_start < s.len() && is_digit(s[digit_start]) {
            digits_end(s, digit_start)
        } else {
            frac_end
        }
    } else {
        frac_end
    }
}

/// Given the index just after an opening quote, the index just after the
/// matching closing quote, or `None` where the literal never closes legally:
/// a raw control character, a malformed escape, or the end of input stops
/// it.
pub open spec fn string_end(s: Seq<char>, i: int) -> Option<int>
    decreases s.len() - i,
{
    if i < 0 || i >= s.len() {
        None
    } else if s[i] == '"' {
        Some(i + 1)
    } else if s[i] == '\\' {
        if i + 1 < s.len() && is_simple_escape(s[i + 1]) {
            string_end(s, i + 2)
        } else if i + 5 < s.len() && s[i + 1] == 'u' && is_hex(s[i + 2]) && is_hex(s[i + 3])
            && is_hex(s[i + 4]) && is_hex(s[i + 5]) {
            string_end(s, i + 6)
        } else {
            None
        }
    } else if (s[i] as u32) < 0x20 {
        None
    } else {
        string_end(s, i + 1)
    }
}

/// The payload of a string literal: the lexeme with every `"` removed.
pub open spec fn remove_quotes(l: Seq<char>) -> Seq<char> {
    l.filter(|c: char| c != '"')
}

/// One step of the lexer: the next token or failure starting at `i` (or
/// `None` at the end of input), and the position just after it.
pub open spec fn spec_next(s: Seq<char>, i: int) -> (Option<Result<TokenM, LexingErrorM>>, int)
    decreases s.len() - i,
{
    if i < 0 || i >= s.len() {
        (None, i)
    } else if is_ws(s[i]) {
        spec_next(s, i + 1)
    } else if is_digit(s[i]) {
        let end = numeral_end(s, i);
        match numeral_bits(s.subrange(i, end)) {
            Some(b) => if b == INFINITY_BITS {
                (Some(Err(LexingErrorM::InvalidInteger("overflow"@))), end)
            } else {
                (Some(Ok(TokenM::Number(b))), end)
            },
            None => (Some(Err(LexingErrorM::InvalidInteger("malformed"@))), end),
        }
    } else if is_alpha(s[i]) {
        let end = ident_end(s, i);
        let lexeme = s.subrange(i, end);
        if lexeme == "true"@ {
            (Some(Ok(TokenM::True)), end)
        } else if lexeme == "false"@ {
            (Some(Ok(TokenM::False)), end)
        } else if lexeme == "nil"@ {
            (Some(Ok(TokenM::Nil)), end)
        } else {
            (Some(Ok(TokenM::Ident(lexeme))), end)
        }
    } else if s[i] == '"' {
        match string_end(s, i + 1) {
            Some(end) => (Some(Ok(TokenM::String(remove_quotes(s.subrange(i, end))))), end),
            None => (Some(Err(LexingErrorM::NonAsciiCharacter)), i + 1),
        }
    } else if s[i] == '+' {
        (Some(Ok(TokenM::Plus)), i + 1)
    } else if s[i] == '-' {
        (Some(Ok(TokenM::Minus)), i + 1)
    } else if s[i] == '*' {
        (Some(Ok(TokenM::Mult)), i + 1)
    } else if s[i] == '/' {
        (Some(Ok(TokenM::Div)), i + 1)
    } else if s[i] == '(' {
        (Some(Ok(TokenM::LParen)), i + 1)
    } else if s[i] == ')' {
        (Some(Ok(TokenM::RParen)), i + 1)
    } else if s[i] == '!' {
        if i + 1 < s.len() && s[i + 1] == '=' {
            (Some(Ok(TokenM::NEqual)), i + 2)
        } else {
            (Some(Ok(TokenM::Bang)), i + 1)
        }
    } else if s[i] == '=' {
        if i + 1 < s.len() && s[i + 1] == '=' {
            (Some(Ok(TokenM::DEqual)), i + 2)
        } else {
            (Some(Ok(TokenM::Equal)), i + 1)
        }
    } else if s[i] == '<' {
        if i + 1 < s.len() && s[i + 1] == '=' {
            (Some(Ok(TokenM::LEqual)), i + 2)
        } else {
            (Some(Ok(TokenM::Less)), i + 1)
        }
    } else if s[i] == '>' {
        if i + 1 < s.len() && s[i + 1] == '=' {
            (Some(Ok(TokenM::GEqual)), i + 2)
        } else {
            (Some(Ok(TokenM::Greater)), i + 1)
        }
    } else {
        (Some(Err(LexingErrorM::NonAsciiCharacter)), i + 1)
    }
}

/// The whole token sequence from position `i` on: every token and every
/// failure, in order, as the lexer meets them.
pub open spec fn spec_tokens(s: Seq<char>, i: int) -> Seq<Result<TokenM, LexingErrorM>>
    decreases s.len() - i,
{
    let (item, j) = spec_next(s, i);
    match item {
        None => Seq::empty(),
        Some(it) => if i < j && j <= s.len() {
            seq![it] + spec_tokens(s, j)
        } else {
            seq![it]
        },
    }
}

// ---------------------------------------------------------------------------
// Bounds of the scanning functions
// ---------------------------------------------------------------------------
pub proof fn lemma_digits_end(s: Seq<char>, i: int)
    requires
        0 <= i <= s.len(),
    ensures
        i <= digits_end(s, i) <= s.len(),
    decreases s.len() - i,
{
    if 0 <= i < s.len() && is_digit(s[i]) {
        lemma_digits_end(s, i + 1);
    }
}

pub proof fn lemma_ident_end(s: Seq<char>, i: int)
    requires
        0 <= i <= s.len(),
    ensures
        i <= ident_end(s, i) <= s.len(),
        i < s.len() && is_alpha(s[i]) ==> i < ident_end(s, i),
    decreases s.len() - i,
{
    if 0 <= i < s.len() && is_alpha(s[i]) {
        lemma_ident_end(s, i + 1);
    }
}

pub proof fn lemma_numeral_end(s: Seq<char>, i: int)
    requires
        0 <= i < s.len(),
        is_digit(s[i]),
    ensures
        i < numeral_end(s, i) <= s.len(),
{
    lemma_digits_end(s, i + 1);
    let int_end = if s[i] == '0' {
        i + 1
    } else {
        digits_end(s, i)
    };
    assert(i < int_end <= s.len());
    if int_end < s.len() && s[int_end] == '.' && int_end + 1 < s.len() && is_digit(
        s[int_end + 1],
    ) {
        lemma_digits_end(s, int_end + 1);
    }
    let frac_end = if int_end < s.len() && s[int_end] == '.' && int_end + 1 < s.len() && is_digit(
        s[int_end + 1],
    ) {
        digits_end(s, int_end + 1)
    } else {
        int_end
    };
    if frac_end < s.len() && (s[frac_end] == 'e' || s[frac_end] == 'E') {
        let digit_start = if frac_end + 1 < s.len() && (s[frac_end + 1] == '+' || s[frac_end + 1]
            == '-') {
            frac_end + 2
        } else {
            frac_end + 1
        };
        if digit_start < s.len() && is_digit(s[digit_start]) {
            lemma_digits_end(s, digit_start);
        }
    }
}

pub proof fn lemma_string_end(s: Seq<char>, i: int)
    requires
        0 <= i <= s.len(),
    ensures
        string_end(s, i) matches Some(e) ==> i < e <= s.len(),
    decreases s.len() - i,
{
    if 0 <= i < s.len() {
        if s[i] == '\\' {
            if i + 1 < s.len() && is_simple_escape(s[i + 1]) {
                lemma_string_end(s, i + 2);
            } else if i + 5 < s.len() && s[i + 1] == 'u' && is_hex(s[i + 2]) && is_hex(s[i + 3])
                && is_hex(s[i + 4]) && is_hex(s[i + 5]) {
                lemma_string_end(s, i + 6);
            }
        } else if s[i] != '"' && (s[i] as u32) >= 0x20 {
            lemma_string_end(s, i + 1);
        }
    }
}

/// The lexer makes progress: a produced item stands strictly before the new
/// position, and positions stay within the input.
pub proof fn lemma_next_progress(s: Seq<char>, i: int)
    requires
        0 <= i <= s.len(),
    ensures
        i <= spec_next(s, i).1 <= s.len(),
        spec_next(s, i).0 is Some ==> i < spec_next(s, i).1,
        spec_next(s, i).0 is None ==> spec_next(s, i).1 == s.len(),
    decreases s.len() - i,
{
    if i < s.len() {
        if is_ws(s[i]) {
            lemma_next_progress(s, i + 1);
        } else if is_digit(s[i]) {
            lemma_numeral_end(s, i);
        } else if is_alpha(s[i]) {
            lemma_ident_end(s, i);
        } else if s[i] == '"' {
            lemma_string_end(s, i + 1);
        }
    }
}

/// Any character that starts no token class lexes as a
/// `NonAsciiCharacter` failure, and the lexer moves one character on.
pub proof fn lemma_unmatched_character(s: Seq<char>, i: int)
    requires
        0 <= i < s.len(),
        !is_ws(s[i]),
        !is_digit(s[i]),
        !is_alpha(s[i]),
        s[i] != '"',
        s[i] != '+',
        s[i] != '-',
        s[i] != '*',
        s[i] != '/',
        s[i] != '(',
        s[i] != ')',
        s[i] != '!',
        s[i] != '=',
        s[i] != '<',
        s[i] != '>',
    ensures
        spec_next(s, i) == (
            Some(Err::<TokenM, LexingErrorM>(LexingErrorM::NonAsciiCharacter)),
            i + 1,
        ),
{
}

/// In particular, any character outside ASCII is rejected so.
pub proof fn lemma_non_ascii_character(s: Seq<char>, i: int)
    requires
        0 <= i < s.len(),
        s[i] as u32 > 127,
    ensures
        spec_next(s, i) == (
            Some(Err::<TokenM, LexingErrorM>(LexingErrorM::NonAsciiCharacter)),
            i + 1,
        ),
{
    lemma_unmatched_character(s, i);
}

// ---------------------------------------------------------------------------
// The executable lexer
// ---------------------------------------------------------------------------
/// Relies on std's `String::push`: appends the given character to the end.
pub assume_specification[ std::string::String::push ](s: &mut std::string::String, c: char)
    ensures
        final(s)@ == old(s)@.push(c),
;

/// The characters of a string slice, as a vector.
fn to_char_vec(s: &str) -> (v: Vec<char>)
    ensures
        v@ == s@,
{
    let mut it = s.chars();
    let mut v: Vec<char> = Vec::new();
    loop
        invariant
            it.obeys_prophetic_iter_laws(),
            v@ + it.remaining() == s@,
        decreases s@.len() - v@.len(),
    {
        match it.next() {
            Some(c) => { v.push(c); },
            None => {
                proof {
                    assert(v@ =~= s@);
                }
                return v;
            },
        }
    }
}

fn ws_char(c: char) -> (b: bool)
    ensures
        b == is_ws(c),
{
    c == ' ' || c == '\t' || c == '\n'
}

fn digit_char(c: char) -> (b: bool)
    ensures
        b == is_digit(c),
{
    '0' as u32 <= c as u32 && c as u32 <= '9' as u32
}

fn alpha_char(c: char) -> (b: bool)
    ensures
        b == is_alpha(c),
{
    ('a' as u32 <= c as u32 && c as u32 <= 'z' as u32) || ('A' as u32 <= c as u32 && c as u32
        <= 'Z' as u32) || c == '_'
}

fn simple_escape_char(c: char) -> (b: bool)
    ensures
        b == is_simple_escape(c),
{
    c == '"' || c == '\\' || c == 'b' || c == 'n' || c == 'f' || c == 'r' || c == 't' || c == '/'
}

fn hex_char(c: char) -> (b: bool)
    ensures
        b == is_hex(c),
{
    ('0' as u32 <= c as u32 && c as u32 <= '9' as u32) || ('a' as u32 <= c as u32 && c as u32
        <= 'f' as u32) || ('A' as u32 <= c as u32 && c as u32 <= 'F' as u32)
}

/// The string of the characters `chars[from..to]`.
fn span_string(chars: &Vec<char>, from: usize, to: usize) -> (s: String)
    requires
        from <= to <= chars@.len(),
    ensures
        s@ == chars@.subrange(from as int, to as int),
{
    let mut s = String::new();
    let mut k = from;
    while k < to
        invariant
            from <= k <= to <= chars@.len(),
            s@ == chars@.subrange(from as int, k as int),
        decreases to - k,
    {
        s.push(chars[k]);
        k = k + 1;
        proof {
            assert(chars@.subrange(from as int, k as int) =~= chars@.subrange(
                from as int,
                k - 1,
            ).push(chars@[k - 1]));
        }
    }
    s
}

/// The string of the characters `chars[from..to]` with every `"` removed.
fn quoteless_string(chars: &Vec<char>, from: usize, to: usize) -> (s: String)
    requires
        from <= to <= chars@.len(),
    ensures
        s@ == remove_quotes(chars@.subrange(from as int, to as int)),
{
    let mut s = String::new();
    let mut k = from;
    proof {
        reveal(Seq::filter);
        assert(chars@.subrange(from as int, from as int) =~= Seq::<char>::empty());
    }
    while k < to
        invariant
            from <= k <= to <= chars@.len(),
            s@ == remove_quotes(chars@.subrange(from as int, k as int)),
        decreases to - k,
    {
        let c = chars[k];
        if c != '"' {
            s.push(c);
        }
        k = k + 1;
        proof {
            reveal(Seq::filter);
            let s1 = chars@.subrange(from as int, k - 1);
            let s2 = chars@.subrange(from as int, k as int);
            assert(s2.drop_last() =~= s1);
            assert(s2.last() == chars@[k - 1]);
            assert(remove_quotes(s2) == if s2.last() != '"' {
                remove_quotes(s1).push(s2.last())
            } else {
                remove_quotes(s1)
            });
        }
    }
    s
}

/// A lexer over a piece of source text: tokens materialize one at a time on
/// demand, and a fresh lexer over the same text yields the same sequence.
pub struct Lexer {
    /// The characters of the source text.
    pub chars: Vec<char>,
    /// The position of the next character to examine.
    pub pos: usize,
}

impl Lexer {
    pub open spec fn wf(&self) -> bool {
        self.pos <= self.chars@.len()
    }

    /// A lexer at the start of the given source text.
    pub fn new(code: &str) -> (l: Lexer)
        ensures
            l.chars@ == code@,
            l.pos == 0,
            l.wf(),
    {
        Lexer { chars: to_char_vec(code), pos: 0 }
    }

    /// The index of the first non-digit at or after `from`.
    fn scan_digits(&self, from: usize) -> (e: usize)
        requires
            from <= self.chars@.len(),
        ensures
            e as int == digits_end(self.chars@, from as int),
            from <= e <= self.chars@.len(),
    {
        let mut k = from;
        while k < self.chars.len() && digit_char(self.chars[k])
            invariant
                from <= k <= self.chars@.len(),
                digits_end(self.chars@, from as int) == digits_end(self.chars@, k as int),
            decreases self.chars@.len() - k,
        {
            k = k + 1;
        }
        k
    }

    /// The index of the first non-identifier character at or after `from`.
    fn scan_ident(&self, from: usize) -> (e: usize)
        requires
            from <= self.chars@.len(),
        ensures
            e as int == ident_end(self.chars@, from as int),
            from <= e <= self.chars@.len(),
    {
        let mut k = from;
        while k < self.chars.len() && alpha_char(self.chars[k])
            invariant
                from <= k <= self.chars@.len(),
                ident_end(self.chars@, from as int) == ident_end(self.chars@, k as int),
            decreases self.chars@.len() - k,
        {
            k = k + 1;
        }
        k
    }

    /// The position just after the closing quote of the string literal whose
    /// opening quote stands at `open`, or `None` where it never closes.
    fn scan_string(&self, open: usize) -> (r: Option<usize>)
        requires
            open < self.chars@.len(),
        ensures
            match r {
                Some(e) => string_end(self.chars@, open as int + 1) == Some(e as int) && open < e
                    <= self.chars@.len(),
                None => string_end(self.chars@, open as int + 1) is None,
            },
    {
        let n = self.chars.len();
        let mut j = open + 1;
        loop
            invariant
                open + 1 <= j <= self.chars@.len(),
                string_end(self.chars@, open as int + 1) == string_end(self.chars@, j as int),
            decreases self.chars@.len() - j,
        {
            if j >= self.chars.len() {
                return None;
            }
            let c = self.chars[j];
            if c == '"' {
                return Some(j + 1);
            } else if c == '\\' {
                if self.chars.len() - j > 1 && simple_escape_char(self.chars[j + 1]) {
                    j = j + 2;
                } else if self.chars.len() - j > 5 && self.chars[j + 1] == 'u' && hex_char(
                    self.chars[j + 2],
                ) && hex_char(self.chars[j + 3]) && hex_char(self.chars[j + 4]) && hex_char(
                    self.chars[j + 5],
                ) {
                    j = j + 6;
                } else {
                    return None;
                }
            } else if (c as u32) < 0x20 {
                return None;
            } else {
                j = j + 1;
            }
        }
    }

    /// The next token of the text, or `None` at its end.  Each call moves
    /// the position to just after what it produced.
    pub fn next_token(&mut self) -> (r: Option<Result<Token, LexingError>>)
        requires
            old(self).wf(),
        ensures
            final(self).wf(),
            final(self).chars@ == old(self).chars@,
            final(self).pos as int == spec_next(old(self).chars@, old(self).pos as int).1,
            item_view(r) == spec_next(old(self).chars@, old(self).pos as int).0,
    {
        let ghost s = self.chars@;
        let ghost p0 = self.pos as int;
        while self.pos < self.chars.len() && ws_char(self.chars[self.pos])
            invariant
                self.wf(),
                self.chars@ == s,
                p0 <= self.pos,
                spec_next(s, p0) == spec_next(s, self.pos as int),
            decreases self.chars@.len() - self.pos,
        {
            self.pos = self.pos + 1;
        }
        let start = self.pos;
        if start >= self.chars.len() {
            return None;
        }
        let c = self.chars[start];
        if digit_char(c) {
            let int_end = if c == '0' {
                start + 1
            } else {
                self.scan_digits(start)
            };
            let mut end = int_end;
            if end < self.chars.len() && self.chars[end] == '.' && end + 1 < self.chars.len()
                && digit_char(self.chars[end + 1]) {
                end = self.scan_digits(end + 1);
            }
            if end < self.chars.len() && (self.chars[end] == 'e' || self.chars[end] == 'E') {
                let ds = if end + 1 < self.chars.len() && (self.chars[end + 1] == '+'
                    || self.chars[end + 1] == '-') {
                    end + 2
                } else {
                    end + 1
                };
                if ds < self.chars.len() && digit_char(self.chars[ds]) {
                    end = self.scan_digits(ds);
                }
            }
            proof {
                assert(end as int == numeral_end(s, start as int));
            }
            let lexeme = span_string(&self.chars, start, end);
            self.pos = end;
            match parse_numeral(lexeme.as_str()) {
                Some(b) => if b == INFINITY_BITS {
                    Some(Err(LexingError::InvalidInteger("overflow".to_owned())))
                } else {
                    Some(Ok(Token::Number(b)))
                },
                None => Some(Err(LexingError::InvalidInteger("malformed".to_owned()))),
            }
        } else if alpha_char(c) {
            let end = self.scan_ident(start);
            let lexeme = span_string(&self.chars, start, end);
            self.pos = end;
            let kw_true: String = "true".to_owned();
            let kw_false: String = "false".to_owned();
            let kw_nil: String = "nil".to_owned();
            if lexeme == kw_true {
                Some(Ok(Token::True))
            } else if lexeme == kw_false {
                Some(Ok(Token::False))
            } else if lexeme == kw_nil {
                Some(Ok(Token::Nil))
            } else {
                Some(Ok(Token::Ident(lexeme)))
            }
        } else if c == '"' {
            match self.scan_string(start) {
                Some(end) => {
                    let payload = quoteless_string(&self.chars, start, end);
                    self.pos = end;
                    Some(Ok(Token::String(payload)))
                },
                None => {
                    self.pos = start + 1;
                    Some(Err(LexingError::NonAsciiCharacter))
                },
            }
        } else if c == '+' {
            self.pos = start + 1;
            Some(Ok(Token::Plus))
        } else if c == '-' {
            self.pos = start + 1;
            Some(Ok(Token::Minus))
        } else if c == '*' {
            self.pos = start + 1;
            Some(Ok(Token::Mult))
        } else if c == '/' {
            self.pos = start + 1;
            Some(Ok(Token::Div))
        } else if c == '(' {
            self.pos = start + 1;
            Some(Ok(Token::LParen))
        } else if c == ')' {
            self.pos = start + 1;
            Some(Ok(Token::RParen))
        } else if c == '!' {
            if start + 1 < self.chars.len() && self.chars[start + 1] == '=' {
                self.pos = start + 2;
                Some(Ok(Token::NEqual))
            } else {
                self.pos = start + 1;
                Some(Ok(Token::Bang))
            }
        } else if c == '=' {
            if start + 1 < self.chars.len() && self.chars[start + 1] == '=' {
                self.pos = start + 2;
                Some(Ok(Token::DEqual))
            } else {
                self.pos = start + 1;
                Some(Ok(Token::Equal))
            }
        } else if c == '<' {
            if start + 1 < self.chars.len() && self.chars[start + 1] == '=' {
                self.pos = start + 2;
                Some(Ok(Token::LEqual))
            } else {
                self.pos = start + 1;
                Some(Ok(Token::Less))
            }
        } else if c == '>' {
            if start + 1 < self.chars.len() && self.chars[start + 1] == '=' {
                self.pos = start + 2;
                Some(Ok(Token::GEqual))
            } else {
                self.pos = start + 1;
                Some(Ok(Token::Greater))
            }
        } else {
            self.pos = start + 1;
            Some(Err(LexingError::NonAsciiCharacter))
        }
    }
}

/// The shape of one produced item.
pub open spec fn res_view(r: Result<Token, LexingError>) -> Result<TokenM, LexingErrorM> {
    match r {
        Ok(t) => Ok(t@),
        Err(e) => Err(e@),
    }
}

/// The shape of what `next_token` hands out.
pub open spec fn item_view(r: Option<Result<Token, LexingError>>) -> Option<
    Result<TokenM, LexingErrorM>,
> {
    match r {
        None => None,
        Some(it) => Some(res_view(it)),
    }
}

/// The shape of a whole produced sequence.
pub open spec fn items_view(s: Seq<Result<Token, LexingError>>) -> Seq<
    Result<TokenM, LexingErrorM>,
> {
    s.map_values(|r: Result<Token, LexingError>| res_view(r))
}

/// Tokenizes code into a series of tokens: every token and every failure,
/// in order.  Re-lexing the same text yields the same series.
pub fn tokenize(code: &str) -> (r: Vec<Result<Token, LexingError>>)
    ensures
        items_view(r@) == spec_tokens(code@, 0),
{
    let mut lx = Lexer::new(code);
    let mut out: Vec<Result<Token, LexingError>> = Vec::new();
    proof {
        assert(items_view(out@) =~= Seq::<Result<TokenM, LexingErrorM>>::empty());
    }
    loop
        invariant
            lx.wf(),
            lx.chars@ == code@,
            items_view(out@) + spec_tokens(code@, lx.pos as int) =~= spec_tokens(code@, 0),
        decreases code@.len() - lx.pos,
    {
        let ghost p = lx.pos as int;
        proof {
            lemma_next_progress(code@, p);
        }
        match lx.next_token() {
            None => {
                proof {
                    assert(spec_tokens(code@, p) =~= Seq::<Result<TokenM, LexingErrorM>>::empty());
                    assert(items_view(out@) =~= spec_tokens(code@, 0));
                }
                return out;
            },
            Some(it) => {
                proof {
                    let (item, j) = spec_next(code@, p);
                    assert(spec_tokens(code@, p) =~= seq![item->Some_0] + spec_tokens(code@, j));
                }
                out.push(it);
                proof {
                    assert(items_view(out@) =~= items_view(out@.drop_last()).push(
                        res_view(out@.last()),
                    ));
                }
            },
        }
    }
}

} // verus!
