//! The scanner: text to tokens, one line at a time.

use vstd::prelude::*;
use vstd::string::*;

verus! {

/// The smallest classified unit of an expression.
///
/// `EndOfLine` and `EndOfFile` mark the boundary of a token sequence; the
/// scanner never produces them.
#[derive(Debug, Clone, Copy, PartialEq, Eq, Structural)]
pub enum Token {
    PLUS,
    MINUS,
    ASTERISK,
    SLASH,
    INT(i32),
    EndOfLine,
    EndOfFile,
}

/// A character that the scanner could not turn into a token.
///
/// `line` counts from one, `column` from zero, in characters.
#[derive(Debug, Clone, Copy, PartialEq, Eq, Structural)]
pub struct TokenError {
    pub line: usize,
    pub column: usize,
    pub character: char,
}

/// The characters with the Unicode property `White_Space`.
pub open spec fn is_whitespace(c: char) -> bool {
    let n: u32 = c as u32;
    ||| 0x09 <= n <= 0x0D
    ||| n == 0x20
    ||| n == 0x85
    ||| n == 0xA0
    ||| n == 0x1680
    ||| 0x2000 <= n <= 0x200A
    ||| n == 0x2028
    ||| n == 0x2029
    ||| n == 0x202F
    ||| n == 0x205F
    ||| n == 0x3000
}

/// The ten ASCII decimal digits.
pub open spec fn is_digit(c: char) -> bool {
    '0' <= c <= '9'
}

/// The value of a decimal digit.
pub open spec fn digit_value(c: char) -> nat
    recommends
        is_digit(c),
{
    (c as u32 - '0' as u32) as nat
}

/// Whether `c` is whitespace.
pub fn char_is_whitespace(c: char) -> (b: bool)
    ensures
        b == is_whitespace(c),
{
    let n: u32 = c as u32;
    (0x09 <= n && n <= 0x0D) || n == 0x20 || n == 0x85 || n == 0xA0 || n == 0x1680 || (0x2000 <= n
        && n <= 0x200A) || n == 0x2028 || n == 0x2029 || n == 0x202F || n == 0x205F || n == 0x3000
}

/// Whether `c` is a decimal digit.
pub fn char_is_digit(c: char) -> (b: bool)
    ensures
        b == is_digit(c),
{
    '0' <= c && c <= '9'
}

/// The number of decimal digits at the start of `s`.
pub open spec fn digit_run(s: Seq<char>) -> nat
    decreases s.len(),
{
    if s.len() > 0 && is_digit(s[0]) {
        1 + digit_run(s.drop_first())
    } else {
        0
    }
}

/// The number that a string of decimal digits denotes.
pub open spec fn decimal_value(digits: Seq<char>) -> nat
    decreases digits.len(),
{
    if digits.len() == 0 {
        0
    } else {
        10 * decimal_value(digits.drop_last()) + digit_value(digits.last())
    }
}

/// How many characters of `rest` belong to the token that `c` opens.
pub open spec fn token_width(c: char, rest: Seq<char>) -> nat {
    if is_digit(c) {
        digit_run(rest)
    } else {
        0
    }
}

/// The token that `c` opens when `rest` follows it.
///
/// An operator character is its own token. A digit opens the longest run of
/// digits, which is an `INT` if its value fits in an `i32` and an error at the
/// first digit otherwise. Every other character is an error.
pub open spec fn token_at(c: char, rest: Seq<char>, line: usize, column: usize) -> Result<
    Token,
    TokenError,
> {
    if c == '+' {
        Ok(Token::PLUS)
    } else if c == '-' {
        Ok(Token::MINUS)
    } else if c == '*' {
        Ok(Token::ASTERISK)
    } else if c == '/' {
        Ok(Token::SLASH)
    } else if is_digit(c) && decimal_value(seq![c] + rest.take(digit_run(rest) as int))
        <= i32::MAX {
        Ok(Token::INT(decimal_value(seq![c] + rest.take(digit_run(rest) as int)) as i32))
    } else {
        Err(TokenError { line, column, character: c })
    }
}

/// The digit run of `s` is no longer than `s`.
pub proof fn lemma_digit_run_bounded(s: Seq<char>)
    ensures
        digit_run(s) <= s.len(),
    decreases s.len(),
{
    if s.len() > 0 && is_digit(s[0]) {
        lemma_digit_run_bounded(s.drop_first());
    }
}

/// The tokens of `text` from `column` on.
pub open spec fn scan_from(text: Seq<char>, line: usize, column: nat) -> Seq<
    Result<Token, TokenError>,
>
    decreases text.len() - column,
    via scan_from_decreases
{
    if column >= text.len() {
        Seq::empty()
    } else if is_whitespace(text[column as int]) {
        scan_from(text, line, column + 1)
    } else {
        let c = text[column as int];
        let rest = text.skip(column + 1 as int);
        seq![token_at(c, rest, line, column as usize)] + scan_from(
            text,
            line,
            column + 1 + token_width(c, rest),
        )
    }
}

#[via_fn]
proof fn scan_from_decreases(text: Seq<char>, line: usize, column: nat) {
    if column < text.len() {
        lemma_digit_run_bounded(text.skip(column + 1 as int));
    }
}

/// The tokens of one line.
pub open spec fn scan_line_spec(text: Seq<char>, line: usize) -> Seq<Result<Token, TokenError>> {
    scan_from(text, line, 0)
}

/// The tokens of a sequence of lines: those of each line in turn, the lines
/// numbered from one.
pub open spec fn scan_file_spec(lines: Seq<Seq<char>>) -> Seq<Result<Token, TokenError>>
    decreases lines.len(),
{
    if lines.len() == 0 {
        Seq::empty()
    } else {
        scan_file_spec(lines.drop_last()) + scan_line_spec(lines.last(), lines.len() as usize)
    }
}

/// A run of `count` digits that ends at the end of `s` or at a non-digit is
/// the whole digit run of `s`.
pub proof fn lemma_digit_run_end(s: Seq<char>, count: nat)
    requires
        count <= s.len(),
        forall|i: int| 0 <= i < count ==> is_digit(#[trigger] s[i]),
        count == s.len() || !is_digit(s[count as int]),
    ensures
        digit_run(s) == count,
    decreases count,
{
    if count > 0 {
        let t = s.drop_first();
        assert forall|i: int| 0 <= i < count - 1 implies is_digit(#[trigger] t[i]) by {
            assert(t[i] == s[i + 1]);
        }
        lemma_digit_run_end(t, (count - 1) as nat);
    }
}

/// The characters of a text, in order.
pub fn text_chars(text: &str) -> (chars: Vec<char>)
    ensures
        chars@ == text@,
{
    let mut chars: Vec<char> = Vec::new();
    for c in it: text.chars()
        invariant
            it.seq() == text@,
            chars@ == it.seq().take(it.index() as int),
    {
        chars.push(c);
    }
    chars
}

/// A text of whitespace alone, from `column` on, has no tokens.
pub proof fn lemma_blank_text_has_no_tokens(text: Seq<char>, line: usize, column: nat)
    requires
        forall|i: int| column <= i < text.len() ==> is_whitespace(#[trigger] text[i]),
    ensures
        scan_from(text, line, column) == Seq::<Result<Token, TokenError>>::empty(),
    decreases text.len() - column,
{
    if column < text.len() {
        lemma_blank_text_has_no_tokens(text, line, column + 1);
    }
}

/// A file without lines, or whose lines hold whitespace alone, has no
/// tokens.
pub proof fn lemma_blank_file_has_no_tokens(lines: Seq<Seq<char>>)
    requires
        forall|k: int, i: int|
            0 <= k < lines.len() && 0 <= i < lines[k].len() ==> is_whitespace(
                #[trigger] lines[k][i],
            ),
    ensures
        scan_file_spec(lines) == Seq::<Result<Token, TokenError>>::empty(),
    decreases lines.len(),
{
    if lines.len() > 0 {
        lemma_blank_file_has_no_tokens(lines.drop_last());
        lemma_blank_text_has_no_tokens(lines.last(), lines.len() as usize, 0);
    }
}

/// What the scanner can say of a line: a token is an operator or an integer
/// that is not negative, never a boundary token; an error names the line, a
/// column of the text at or behind the start of the scan, and the character
/// that stands there.
pub open spec fn is_scan_result(
    result: Result<Token, TokenError>,
    text: Seq<char>,
    line: usize,
    column: nat,
) -> bool {
    match result {
        Ok(Token::INT(n)) => n >= 0,
        Ok(token) => token is PLUS || token is MINUS || token is ASTERISK || token is SLASH,
        Err(error) => {
            &&& error.line == line
            &&& column <= error.column < text.len()
            &&& error.character == text[error.column as int]
        },
    }
}

/// Every result of scanning a line is a scan result of that line.
pub proof fn lemma_scan_results(text: Seq<char>, line: usize, column: nat)
    requires
        text.len() <= usize::MAX,
    ensures
        forall|i: int|
            0 <= i < scan_from(text, line, column).len() ==> is_scan_result(
                #[trigger] scan_from(text, line, column)[i],
                text,
                line,
                column,
            ),
    decreases text.len() - column,
{
    if column < text.len() {
        let c = text[column as int];
        let rest = text.skip(column + 1 as int);
        lemma_digit_run_bounded(rest);
        if is_whitespace(c) {
            lemma_scan_results(text, line, column + 1);
        } else {
            let next = column + 1 + token_width(c, rest);
            lemma_scan_results(text, line, next);
            let tail = scan_from(text, line, next);
            assert forall|i: int| 0 <= i < scan_from(text, line, column).len() implies is_scan_result(
                #[trigger] scan_from(text, line, column)[i],
                text,
                line,
                column,
            ) by {
                if i > 0 {
                    assert(scan_from(text, line, column)[i] == tail[i - 1]);
                    assert(is_scan_result(tail[i - 1], text, line, next));
                }
            }
        }
    }
}

/// A position in the characters of one line, with one character of lookahead.
pub struct CharCursor {
    chars: Vec<char>,
    position: usize,
}

impl CharCursor {
    #[verifier::type_invariant]
    spec fn in_bounds(self) -> bool {
        self.position <= self.chars.len()
    }

    /// All the characters of the line.
    pub closed spec fn text(self) -> Seq<char> {
        self.chars@
    }

    /// The number of characters that were consumed.
    pub closed spec fn position(self) -> nat {
        self.position as nat
    }

    /// The characters that were not consumed yet.
    pub open spec fn remaining(self) -> Seq<char> {
        self.text().skip(self.position() as int)
    }

    /// A cursor at the start of `text`.
    pub fn new(text: &str) -> (cursor: CharCursor)
        ensures
            cursor.text() == text@,
            cursor.position() == 0,
            text@.len() <= usize::MAX,
    {
        CharCursor { chars: text_chars(text), position: 0 }
    }

    /// The next character and its column, which stay in place.
    pub fn peek(&self) -> (next: Option<(usize, char)>)
        ensures
            next == self.peek_spec(),
            self.position() <= self.text().len(),
    {
        proof {
            use_type_invariant(self);
        }
        if self.position < self.chars.len() {
            Some((self.position, self.chars[self.position]))
        } else {
            None
        }
    }

    /// The next character and its column; the cursor moves past it.
    pub fn next(&mut self) -> (next: Option<(usize, char)>)
        ensures
            next == old(self).peek_spec(),
            final(self).text() == old(self).text(),
            final(self).position() == if next is Some {
                old(self).position() + 1
            } else {
                old(self).position()
            },
            final(self).position() <= final(self).text().len(),
    {
        proof {
            use_type_invariant(&*self);
        }
        if self.position < self.chars.len() {
            let c = self.chars[self.position];
            let column = self.position;
            self.position = self.position + 1;
            Some((column, c))
        } else {
            None
        }
    }

    /// What `peek` returns.
    pub open spec fn peek_spec(self) -> Option<(usize, char)> {
        if self.position() < self.text().len() {
            Some((self.position() as usize, self.text()[self.position() as int]))
        } else {
            None
        }
    }
}

/// Appending a digit to a digit string multiplies its value by ten and adds
/// the digit.
pub proof fn lemma_decimal_value_push(digits: Seq<char>, c: char)
    ensures
        decimal_value(digits.push(c)) == 10 * decimal_value(digits) + digit_value(c),
{
    assert(digits.push(c).drop_last() =~= digits);
}

/// Scans the token that `current_char` opens. `chars` stands behind
/// `current_char`; the digits that belong to the token are consumed from it,
/// and nothing else is.
pub fn scan_token(current_char: char, chars: &mut CharCursor, line: usize, column: usize) -> (token:
    Result<Token, TokenError>)
    ensures
        token == token_at(current_char, old(chars).remaining(), line, column),
        final(chars).text() == old(chars).text(),
        final(chars).position() == old(chars).position() + token_width(
            current_char,
            old(chars).remaining(),
        ),
        final(chars).position() <= final(chars).text().len(),
{
    let ghost rest = chars.remaining();
    let ghost start = chars.position();
    proof {
        use_type_invariant(&*chars);
    }
    if current_char == '+' {
        Ok(Token::PLUS)
    } else if current_char == '-' {
        Ok(Token::MINUS)
    } else if current_char == '*' {
        Ok(Token::ASTERISK)
    } else if current_char == '/' {
        Ok(Token::SLASH)
    } else if char_is_digit(current_char) {
        let mut value: u32 = current_char as u32 - '0' as u32;
        let mut fits = true;
        let mut count: usize = 0;
        proof {
            assert(seq![current_char] + rest.take(0) =~= Seq::empty().push(current_char));
            lemma_decimal_value_push(Seq::empty(), current_char);
        }
        loop
            invariant
                chars.text() == old(chars).text(),
                chars.position() == start + count,
                chars.position() <= chars.text().len(),
                rest == old(chars).remaining(),
                start == old(chars).position(),
                forall|i: int| 0 <= i < count ==> is_digit(#[trigger] rest[i]),
                fits ==> value == decimal_value(seq![current_char] + rest.take(count as int)),
                fits ==> value <= i32::MAX,
                !fits ==> decimal_value(seq![current_char] + rest.take(count as int)) > i32::MAX,
            ensures
                count == digit_run(rest),
            decreases chars.text().len() - chars.position(),
        {
            let digit = match chars.peek() {
                Some((_, next_char)) => if char_is_digit(next_char) {
                    Some(next_char)
                } else {
                    None
                },
                None => None,
            };
            match digit {
                Some(next_char) => {
                    proof {
                        let seen = seq![current_char] + rest.take(count as int);
                        assert(rest[count as int] == next_char);
                        assert(seen.push(next_char) =~= seq![current_char] + rest.take(
                            count + 1,
                        ));
                        lemma_decimal_value_push(seen, next_char);
                    }
                    if fits {
                        let d: u32 = next_char as u32 - '0' as u32;
                        // With this digit the value would pass 2147483647.
                        if value > 214748364 || (value == 214748364 && d > 7) {
                            fits = false;
                        } else {
                            value = value * 10 + d;
                        }
                    }
                    let _ = chars.next();
                    count = count + 1;
                },
                None => {
                    proof {
                        lemma_digit_run_end(rest, count as nat);
                    }
                    break ;
                },
            }
        }
        if fits {
            Ok(Token::INT(value as i32))
        } else {
            Err(TokenError { line, column, character: current_char })
        }
    } else {
        Err(TokenError { line, column, character: current_char })
    }
}

/// Scans one line. Whitespace separates tokens and yields none; a character
/// that opens no token yields an error, and scanning goes on behind it.
pub fn scan_line(line: &str, line_num: usize) -> (tokens: Vec<Result<Token, TokenError>>)
    ensures
        tokens@ == scan_line_spec(line@, line_num),
        forall|i: int|
            0 <= i < tokens@.len() ==> is_scan_result(#[trigger] tokens@[i], line@, line_num, 0),
{
    let mut tokens: Vec<Result<Token, TokenError>> = Vec::new();
    let mut chars = CharCursor::new(line);
    proof {
        lemma_scan_results(line@, line_num, 0);
    }
    loop
        invariant
            chars.text() == line@,
            chars.position() <= line@.len(),
            tokens@ + scan_from(line@, line_num, chars.position()) == scan_line_spec(
                line@,
                line_num,
            ),
        ensures
            tokens@ == scan_line_spec(line@, line_num),
        decreases line@.len() - chars.position(),
    {
        let ghost before = tokens@;
        let ghost at = chars.position();
        match chars.next() {
            Some((column, ch)) => {
                if !char_is_whitespace(ch) {
                    let token_result = scan_token(ch, &mut chars, line_num, column);
                    tokens.push(token_result);
                    proof {
                        let tail = scan_from(line@, line_num, chars.position());
                        assert(tokens@ + tail =~= before + (seq![token_result] + tail));
                    }
                }
            },
            None => {
                assert(tokens@ + Seq::empty() =~= tokens@);
                break ;
            },
        }
    }
    tokens
}

/// Scans the lines of a file, the first of which has the number one, and
/// returns their tokens in one sequence.
pub fn scan_file(lines: &Vec<String>) -> (tokens: Vec<Result<Token, TokenError>>)
    ensures
        tokens@ == scan_file_spec(lines@.map_values(|line: String| line@)),
{
    let ghost texts = lines@.map_values(|line: String| line@);
    let mut tokens: Vec<Result<Token, TokenError>> = Vec::new();
    let mut index: usize = 0;
    while index < lines.len()
        invariant
            index <= lines.len(),
            texts == lines@.map_values(|line: String| line@),
            tokens@ == scan_file_spec(texts.take(index as int)),
        decreases lines.len() - index,
    {
        let mut line_tokens = scan_line(lines[index].as_str(), index + 1);
        proof {
            let upto = texts.take(index + 1);
            assert(upto.drop_last() =~= texts.take(index as int));
            assert(upto.last() == lines[index as int]@);
        }
        tokens.append(&mut line_tokens);
        index = index + 1;
    }
    proof {
        assert(texts.take(lines.len() as int) =~= texts);
    }
    tokens
}

} // verus!
