use vstd::prelude::*;
use crate::text::{chars_of, string_of};

verus! {

/// The kinds of token of a command line.
#[derive(Clone, Copy, Debug, PartialEq, Eq, Structural)]
pub enum Token {
    End,
    Error,
    Equal,
    DoublePipe,
    Pipe,
    DoubleAnd,
    And,
    ParensOpen,
    ParensClose,
    DoubleRedirLeft,
    RedirLeft,
    DoubleRedirRight,
    RedirRight,
    SemiColon,
    Comment,
    String,
    Text,
    SubExec,
}

/// Characters skipped between tokens: the control characters and the space
/// (codes 1 to 32).
pub open spec fn is_blank(c: char) -> bool {
    '\u{1}' <= c && c <= ' '
}

/// Characters of a plain word: `[0-9a-zA-Z-/.=+\[\]:\\$\{\}]`, so that a
/// variable reference such as `$USER` or `${USER}` is a word.
pub open spec fn is_text_char(c: char) -> bool {
    ||| ('0' <= c && c <= '9')
    ||| ('a' <= c && c <= 'z')
    ||| ('A' <= c && c <= 'Z')
    ||| c == '-'
    ||| c == '/'
    ||| c == '.'
    ||| c == '='
    ||| c == '+'
    ||| c == '['
    ||| c == ']'
    ||| c == ':'
    ||| c == '\\'
    ||| c == '$'
    ||| c == '{'
    ||| c == '}'
}

/// The first index from `i` on that holds no blank character.
pub open spec fn skip_blank(s: Seq<char>, i: int) -> int
    decreases s.len() - i,
{
    if 0 <= i < s.len() && is_blank(s[i]) {
        skip_blank(s, i + 1)
    } else {
        i
    }
}

/// The end of the longest run of word characters that starts at `i`.
pub open spec fn text_end(s: Seq<char>, i: int) -> int
    decreases s.len() - i,
{
    if 0 <= i < s.len() && is_text_char(s[i]) {
        text_end(s, i + 1)
    } else {
        i
    }
}

/// The first index from `i` on that holds `c`, or `s.len()`.
pub open spec fn find_from(s: Seq<char>, i: int, c: char) -> int
    decreases s.len() - i,
{
    if 0 <= i < s.len() && s[i] != c {
        find_from(s, i + 1, c)
    } else if i < s.len() {
        i
    } else {
        s.len() as int
    }
}

/// Whether index `j` of `s` holds `c`.
pub open spec fn holds(s: Seq<char>, j: int, c: char) -> bool {
    0 <= j < s.len() && s[j] == c
}

/// The token that starts at index `i` of `s`, and the index just past it.
/// The end of the text, or a NUL character, is `End`; a character that starts
/// no token, or a quote that is never closed, is a one-character `Error`.
/// Where a word and `=` both fit, the longer wins, and a lone `=` is `Equal`.
pub open spec fn token_at(s: Seq<char>, i: int) -> (Token, int) {
    if i < 0 || i >= s.len() || s[i] == '\0' {
        (Token::End, i)
    } else {
        let c = s[i];
        if c == '|' {
            if holds(s, i + 1, '|') { (Token::DoublePipe, i + 2) } else { (Token::Pipe, i + 1) }
        } else if c == '&' {
            if holds(s, i + 1, '&') { (Token::DoubleAnd, i + 2) } else { (Token::And, i + 1) }
        } else if c == '<' {
            if holds(s, i + 1, '<') { (Token::DoubleRedirLeft, i + 2) } else { (Token::RedirLeft, i + 1) }
        } else if c == '>' {
            if holds(s, i + 1, '>') { (Token::DoubleRedirRight, i + 2) } else { (Token::RedirRight, i + 1) }
        } else if c == '(' {
            (Token::ParensOpen, i + 1)
        } else if c == ')' {
            (Token::ParensClose, i + 1)
        } else if c == ';' {
            (Token::SemiColon, i + 1)
        } else if c == '#' {
            (Token::Comment, find_from(s, i + 1, '\n'))
        } else if c == '"' {
            let j = find_from(s, i + 1, '"');
            if j < s.len() { (Token::String, j + 1) } else { (Token::Error, i + 1) }
        } else if c == '`' {
            let j = find_from(s, i + 1, '`');
            if j < s.len() { (Token::SubExec, j + 1) } else { (Token::Error, i + 1) }
        } else if c == '=' && !(i + 1 < s.len() && is_text_char(s[i + 1])) {
            (Token::Equal, i + 1)
        } else if is_text_char(c) {
            (Token::Text, text_end(s, i))
        } else {
            (Token::Error, i + 1)
        }
    }
}

/// The start of the token after the one that starts at `i`.
pub open spec fn next_start(s: Seq<char>, i: int) -> int {
    skip_blank(s, token_at(s, i).1)
}

pub proof fn lemma_skip_blank(s: Seq<char>, i: int)
    ensures
        i <= skip_blank(s, i),
        0 <= i <= s.len() ==> skip_blank(s, i) <= s.len(),
        skip_blank(s, skip_blank(s, i)) == skip_blank(s, i),
    decreases s.len() - i,
{
    if 0 <= i < s.len() && is_blank(s[i]) {
        lemma_skip_blank(s, i + 1);
    }
}

pub proof fn lemma_text_end(s: Seq<char>, i: int)
    ensures
        i <= text_end(s, i),
        0 <= i <= s.len() ==> text_end(s, i) <= s.len(),
        forall|j: int| i <= j < text_end(s, i) ==> is_text_char(s[j]),
    decreases s.len() - i,
{
    if 0 <= i < s.len() && is_text_char(s[i]) {
        lemma_text_end(s, i + 1);
    }
}

pub proof fn lemma_find_from(s: Seq<char>, i: int, c: char)
    requires
        0 <= i,
    ensures
        i <= find_from(s, i, c) || i > s.len(),
        find_from(s, i, c) <= s.len(),
        find_from(s, i, c) < s.len() ==> s[find_from(s, i, c)] == c,
        forall|j: int| i <= j < find_from(s, i, c) ==> s[j] != c,
    decreases s.len() - i,
{
    if 0 <= i < s.len() && s[i] != c {
        lemma_find_from(s, i + 1, c);
    }
}

/// Every token but `End` is at least one character long and ends within the text.
pub proof fn lemma_token_at(s: Seq<char>, i: int)
    requires
        0 <= i <= s.len(),
    ensures
        token_at(s, i).0 == Token::End ==> token_at(s, i).1 == i,
        token_at(s, i).0 != Token::End ==> i < token_at(s, i).1 <= s.len(),
        i < next_start(s, i) || token_at(s, i).0 == Token::End,
        next_start(s, i) <= s.len(),
        token_at(s, i).0 == Token::String ==> s[i] == '"' && i + 2 <= token_at(s, i).1 && s[token_at(s, i).1 - 1] == '"',
        token_at(s, i).0 == Token::SubExec ==> s[i] == '`' && i + 2 <= token_at(s, i).1 && s[token_at(s, i).1 - 1] == '`',
{
    lemma_find_from(s, i + 1, '\n');
    lemma_find_from(s, i + 1, '"');
    lemma_find_from(s, i + 1, '`');
    lemma_text_end(s, i);
    lemma_text_end(s, i + 1);
    lemma_skip_blank(s, token_at(s, i).1);
}

/// A command line cut into tokens: the characters, and the current token
/// with the range of the characters it covers.
pub struct Lexer {
    chars: Vec<char>,
    token: Token,
    start: usize,
    end: usize,
}

impl Lexer {
    /// The characters being cut into tokens.
    pub closed spec fn source(&self) -> Seq<char> {
        self.chars@
    }

    /// Where the current token starts.
    pub closed spec fn position(&self) -> int {
        self.start as int
    }

    /// The current token.
    pub closed spec fn current(&self) -> Token {
        self.token
    }

    /// The current token is the one that `token_at` finds at its start, and
    /// that start is not blank.
    pub closed spec fn wf(&self) -> bool {
        &&& self.start <= self.chars@.len()
        &&& skip_blank(self.chars@, self.start as int) == self.start
        &&& token_at(self.chars@, self.start as int) == (self.token, self.end as int)
    }

    pub proof fn lemma_wf(&self)
        requires
            self.wf(),
        ensures
            0 <= self.position() <= self.source().len(),
            self.current() == token_at(self.source(), self.position()).0,
            skip_blank(self.source(), self.position()) == self.position(),
    {
    }

    /// A lexer on `input`, at its first token.
    pub fn new(input: &str) -> (res: Lexer)
        ensures
            res.wf(),
            res.source() == input@,
            res.position() == skip_blank(input@, 0),
    {
        let chars = chars_of(input);
        let start = scan_blank(&chars, 0);
        proof {
            lemma_skip_blank(chars@, 0);
        }
        let (token, end) = scan_token(&chars, start);
        Lexer { chars, token, start, end }
    }

    /// The current token.
    pub fn token(&self) -> (res: Token)
        requires
            self.wf(),
        ensures
            res == self.current(),
    {
        self.token
    }

    /// The text of the current token.
    pub fn slice(&self) -> (res: String)
        requires
            self.wf(),
        ensures
            res@ == self.source().subrange(self.position(), token_at(self.source(), self.position()).1),
    {
        proof {
            lemma_token_at(self.chars@, self.start as int);
        }
        string_of(&self.chars, self.start, self.end)
    }

    /// Moves to the next token; at the end it stays there.
    pub fn advance(&mut self)
        requires
            old(self).wf(),
        ensures
            final(self).wf(),
            final(self).source() == old(self).source(),
            final(self).position() == next_start(old(self).source(), old(self).position()),
    {
        proof {
            lemma_token_at(self.chars@, self.start as int);
            lemma_skip_blank(self.chars@, self.end as int);
        }
        let start = scan_blank(&self.chars, self.end);
        let (token, end) = scan_token(&self.chars, start);
        self.start = start;
        self.token = token;
        self.end = end;
    }
}

fn is_blank_char(c: char) -> (res: bool)
    ensures
        res == is_blank(c),
{
    '\u{1}' <= c && c <= ' '
}

fn is_text(c: char) -> (res: bool)
    ensures
        res == is_text_char(c),
{
    ('0' <= c && c <= '9') || ('a' <= c && c <= 'z') || ('A' <= c && c <= 'Z') || c == '-'
        || c == '/' || c == '.' || c == '=' || c == '+' || c == '[' || c == ']' || c == ':'
        || c == '\\' || c == '$' || c == '{' || c == '}'
}

fn scan_blank(s: &Vec<char>, i: usize) -> (res: usize)
    requires
        i <= s@.len(),
    ensures
        res == skip_blank(s@, i as int),
{
    let mut j = i;
    while j < s.len() && is_blank_char(s[j])
        invariant
            i <= j <= s@.len(),
            skip_blank(s@, j as int) == skip_blank(s@, i as int),
        decreases s@.len() - j,
    {
        j = j + 1;
    }
    j
}

fn scan_text(s: &Vec<char>, i: usize) -> (res: usize)
    requires
        i <= s@.len(),
    ensures
        res == text_end(s@, i as int),
{
    let mut j = i;
    while j < s.len() && is_text(s[j])
        invariant
            i <= j <= s@.len(),
            text_end(s@, j as int) == text_end(s@, i as int),
        decreases s@.len() - j,
    {
        j = j + 1;
    }
    j
}

fn scan_find(s: &Vec<char>, i: usize, c: char) -> (res: usize)
    requires
        i <= s@.len(),
    ensures
        res == find_from(s@, i as int, c),
{
    let mut j = i;
    while j < s.len() && s[j] != c
        invariant
            i <= j <= s@.len(),
            find_from(s@, j as int, c) == find_from(s@, i as int, c),
        decreases s@.len() - j,
    {
        j = j + 1;
    }
    j
}

fn next_is(s: &Vec<char>, j: usize, c: char) -> (res: bool)
    ensures
        res == holds(s@, j as int, c),
{
    j < s.len() && s[j] == c
}

fn scan_token(s: &Vec<char>, i: usize) -> (res: (Token, usize))
    requires
        i <= s@.len(),
    ensures
        (res.0, res.1 as int) == token_at(s@, i as int),
{
    if i >= s.len() || s[i] == '\0' {
        return (Token::End, i);
    }
    let c = s[i];
    if c == '|' {
        if next_is(s, i + 1, '|') { (Token::DoublePipe, i + 2) } else { (Token::Pipe, i + 1) }
    } else if c == '&' {
        if next_is(s, i + 1, '&') { (Token::DoubleAnd, i + 2) } else { (Token::And, i + 1) }
    } else if c == '<' {
        if next_is(s, i + 1, '<') { (Token::DoubleRedirLeft, i + 2) } else { (Token::RedirLeft, i + 1) }
    } else if c == '>' {
        if next_is(s, i + 1, '>') { (Token::DoubleRedirRight, i + 2) } else { (Token::RedirRight, i + 1) }
    } else if c == '(' {
        (Token::ParensOpen, i + 1)
    } else if c == ')' {
        (Token::ParensClose, i + 1)
    } else if c == ';' {
        (Token::SemiColon, i + 1)
    } else if c == '#' {
        (Token::Comment, scan_find(s, i + 1, '\n'))
    } else if c == '"' {
        let j = scan_find(s, i + 1, '"');
        if j < s.len() { (Token::String, j + 1) } else { (Token::Error, i + 1) }
    } else if c == '`' {
        let j = scan_find(s, i + 1, '`');
        if j < s.len() { (Token::SubExec, j + 1) } else { (Token::Error, i + 1) }
    } else if c == '=' && !(i + 1 < s.len() && is_text(s[i + 1])) {
        (Token::Equal, i + 1)
    } else if is_text(c) {
        (Token::Text, scan_text(s, i))
    } else {
        (Token::Error, i + 1)
    }
}

/// The tokens of `input`, with their texts, from the first up to the first
/// `End` or `Error` (which is included): what a parser can ever read of it.
pub fn tokens(input: &str) -> (res: Vec<(Token, String)>)
    ensures
        res@.len() >= 1,
        token_list(input@, skip_blank(input@, 0), res@.len() as nat) == res@.map_values(|p: (Token, String)| (p.0, p.1@)),
        res@.last().0 == Token::End || res@.last().0 == Token::Error,
        forall|k: int| 0 <= k < res@.len() - 1 ==> res@[k].0 != Token::End && res@[k].0 != Token::Error,
{
    let mut lexer = Lexer::new(input);
    let mut out: Vec<(Token, String)> = Vec::new();
    let ghost s = input@;
    proof {
        lemma_skip_blank(s, 0);
    }
    loop
        invariant
            lexer.wf(),
            s == input@,
            lexer.source() == s,
            token_list(s, skip_blank(s, 0), out@.len() as nat) == out@.map_values(|p: (Token, String)| (p.0, p.1@)),
            lexer.position() == nth_start(s, skip_blank(s, 0), out@.len() as nat),
            forall|k: int| 0 <= k < out@.len() ==> out@[k].0 != Token::End && out@[k].0 != Token::Error,
        decreases s.len() - lexer.position(),
    {
        proof { lexer.lemma_wf(); }
        let t = lexer.token();
        let text = lexer.slice();
        let ghost before = out@;
        out.push((t, text));
        proof {
            assert(out@.map_values(|p: (Token, String)| (p.0, p.1@)) =~= before.map_values(|p: (Token, String)| (p.0, p.1@)).push((t, text@)));
            lemma_token_list_push(s, skip_blank(s, 0), before.len() as nat);
        }
        if t == Token::End || t == Token::Error {
            return out;
        }
        proof { lemma_token_at(s, lexer.position()); }
        lexer.advance();
    }
}

/// The start of the token `n` places after the one at `i`.
pub open spec fn nth_start(s: Seq<char>, i: int, n: nat) -> int
    decreases n,
{
    if n == 0 { i } else { next_start(s, nth_start(s, i, (n - 1) as nat)) }
}

/// The first `n` tokens from the one at `i`, with their texts.
pub open spec fn token_list(s: Seq<char>, i: int, n: nat) -> Seq<(Token, Seq<char>)>
    decreases n,
{
    if n == 0 {
        seq![]
    } else {
        let p = nth_start(s, i, (n - 1) as nat);
        token_list(s, i, (n - 1) as nat).push((token_at(s, p).0, s.subrange(p, token_at(s, p).1)))
    }
}

proof fn lemma_token_list_push(s: Seq<char>, i: int, n: nat)
    ensures
        token_list(s, i, n + 1) == token_list(s, i, n).push(
            (token_at(s, nth_start(s, i, n)).0, s.subrange(nth_start(s, i, n), token_at(s, nth_start(s, i, n)).1)),
        ),
{
}

} // verus!
