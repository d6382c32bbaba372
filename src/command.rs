use crate::text::{chars_of, push_char, string_from};
use vstd::prelude::*;

verus! {

/// One lexical unit of a command line.
#[derive(Debug, PartialEq, Eq)]
pub enum Token {
    /// A word or argument, with its quotes and escapes already resolved.
    Word(String),
    /// `>`, `>>`, `1>` or `1>>`; the flag is set for the appending forms.
    OutputRedirect(bool),
    /// `2>` or `2>>`; the flag is set for the appending form.
    ErrorRedirect(bool),
    /// `|`
    Pipe,
    /// `&`
    Background,
}

/// The mathematical value of a [`Token`]: words as character sequences.
pub enum TokenView {
    Word(Seq<char>),
    OutputRedirect(bool),
    ErrorRedirect(bool),
    Pipe,
    Background,
}

impl View for Token {
    type V = TokenView;

    open spec fn view(&self) -> TokenView {
        match self {
            Token::Word(w) => TokenView::Word(w@),
            Token::OutputRedirect(a) => TokenView::OutputRedirect(*a),
            Token::ErrorRedirect(a) => TokenView::ErrorRedirect(*a),
            Token::Pipe => TokenView::Pipe,
            Token::Background => TokenView::Background,
        }
    }
}

/// The quoting context the word reader is in.
#[derive(Clone, Copy, PartialEq, Eq, Structural)]
pub enum QuoteMode {
    Plain,
    Single,
    Double,
}

/// Space and tab separate words.
pub open spec fn is_blank(c: char) -> bool {
    c == ' ' || c == '\t'
}

/// Outside quotes, a word ends before a blank or an operator character.
pub open spec fn ends_word(c: char) -> bool {
    is_blank(c) || c == '>' || c == '|' || c == '&'
}

/// Reads a word from the front of `s` in quoting context `mode`, after `acc`
/// has been collected. Gives the finished word and how many characters of `s`
/// it took. An open quote at the end of the input ends the word there.
pub open spec fn scan_word(s: Seq<char>, mode: QuoteMode, acc: Seq<char>) -> (Seq<char>, int)
    decreases s.len(),
{
    if s.len() == 0 {
        (acc, 0)
    } else {
        let c = s[0];
        let rest = s.drop_first();
        match mode {
            QuoteMode::Plain => {
                if ends_word(c) {
                    (acc, 0)
                } else if c == '\'' {
                    let (w, n) = scan_word(rest, QuoteMode::Single, acc);
                    (w, n + 1)
                } else if c == '"' {
                    let (w, n) = scan_word(rest, QuoteMode::Double, acc);
                    (w, n + 1)
                } else if c == '\\' {
                    if rest.len() == 0 {
                        (acc, 1)
                    } else {
                        let (w, n) = scan_word(rest.drop_first(), QuoteMode::Plain, acc.push(rest[0]));
                        (w, n + 2)
                    }
                } else {
                    let (w, n) = scan_word(rest, QuoteMode::Plain, acc.push(c));
                    (w, n + 1)
                }
            },
            QuoteMode::Single => {
                if c == '\'' {
                    let (w, n) = scan_word(rest, QuoteMode::Plain, acc);
                    (w, n + 1)
                } else {
                    let (w, n) = scan_word(rest, QuoteMode::Single, acc.push(c));
                    (w, n + 1)
                }
            },
            QuoteMode::Double => {
                if c == '"' {
                    let (w, n) = scan_word(rest, QuoteMode::Plain, acc);
                    (w, n + 1)
                } else if c == '\\' && rest.len() > 0 && (rest[0] == '"' || rest[0] == '\\') {
                    let (w, n) = scan_word(rest.drop_first(), QuoteMode::Double, acc.push(rest[0]));
                    (w, n + 2)
                } else {
                    let (w, n) = scan_word(rest, QuoteMode::Double, acc.push(c));
                    (w, n + 1)
                }
            },
        }
    }
}

/// A word scan takes no more than the input, and takes at least one
/// character unless it stops at once before a word-ending character.
pub proof fn lemma_scan_word_bounds(s: Seq<char>, mode: QuoteMode, acc: Seq<char>)
    ensures
        0 <= scan_word(s, mode, acc).1 <= s.len(),
        s.len() > 0 && !(mode == QuoteMode::Plain && ends_word(s[0])) ==> scan_word(
            s,
            mode,
            acc,
        ).1 >= 1,
    decreases s.len(),
{
    if s.len() > 0 {
        let c = s[0];
        let rest = s.drop_first();
        match mode {
            QuoteMode::Plain => {
                if ends_word(c) {
                } else if c == '\'' {
                    lemma_scan_word_bounds(rest, QuoteMode::Single, acc);
                } else if c == '"' {
                    lemma_scan_word_bounds(rest, QuoteMode::Double, acc);
                } else if c == '\\' {
                    if rest.len() > 0 {
                        lemma_scan_word_bounds(rest.drop_first(), QuoteMode::Plain, acc.push(rest[0]));
                    }
                } else {
                    lemma_scan_word_bounds(rest, QuoteMode::Plain, acc.push(c));
                }
            },
            QuoteMode::Single => {
                if c == '\'' {
                    lemma_scan_word_bounds(rest, QuoteMode::Plain, acc);
                } else {
                    lemma_scan_word_bounds(rest, QuoteMode::Single, acc.push(c));
                }
            },
            QuoteMode::Double => {
                if c == '"' {
                    lemma_scan_word_bounds(rest, QuoteMode::Plain, acc);
                } else if c == '\\' && rest.len() > 0 && (rest[0] == '"' || rest[0] == '\\') {
                    lemma_scan_word_bounds(rest.drop_first(), QuoteMode::Double, acc.push(rest[0]));
                } else {
                    lemma_scan_word_bounds(rest, QuoteMode::Double, acc.push(c));
                }
            },
        }
    }
}

/// The token for a redirection operator whose first `>` stands at index `k`
/// of `s`: a second `>` right after it makes it appending.
pub open spec fn redirect_token(s: Seq<char>, k: int, to_stderr: bool) -> TokenView {
    let append = s.len() > k + 1 && s[k + 1] == '>';
    if to_stderr {
        TokenView::ErrorRedirect(append)
    } else {
        TokenView::OutputRedirect(append)
    }
}

/// How many characters the redirection operator with its first `>` at `k` spans.
pub open spec fn redirect_len(s: Seq<char>, k: int) -> int {
    if s.len() > k + 1 && s[k + 1] == '>' {
        k + 2
    } else {
        k + 1
    }
}

/// The token stream of a command line.
pub open spec fn lex(s: Seq<char>) -> Seq<TokenView>
    decreases s.len(),
{
    if s.len() == 0 {
        seq![]
    } else {
        let c = s[0];
        if is_blank(c) {
            lex(s.drop_first())
        } else if c == '>' {
            seq![redirect_token(s, 0, false)] + lex(s.subrange(redirect_len(s, 0), s.len() as int))
        } else if (c == '1' || c == '2') && s.len() > 1 && s[1] == '>' {
            seq![redirect_token(s, 1, c == '2')] + lex(
                s.subrange(redirect_len(s, 1), s.len() as int),
            )
        } else if c == '|' {
            seq![TokenView::Pipe] + lex(s.drop_first())
        } else if c == '&' {
            seq![TokenView::Background] + lex(s.drop_first())
        } else {
            let (w, n) = scan_word(s, QuoteMode::Plain, seq![]);
            proof {
                lemma_scan_word_bounds(s, QuoteMode::Plain, seq![]);
            }
            let rest = lex(s.subrange(n, s.len() as int));
            if w.len() == 0 {
                rest
            } else {
                seq![TokenView::Word(w)] + rest
            }
        }
    }
}

/// Reads a command line character by character.
struct Lexer {
    position: usize,
    chars: Vec<char>,
}

impl Lexer {
    spec fn wf(&self) -> bool {
        self.position <= self.chars@.len()
    }

    /// What is left to read.
    spec fn rest(&self) -> Seq<char> {
        self.chars@.subrange(self.position as int, self.chars@.len() as int)
    }

    fn new(input: &str) -> (r: Lexer)
        ensures
            r.wf(),
            r.position == 0,
            r.chars@ == input@,
            r.rest() == input@,
    {
        let chars = chars_of(input);
        let r = Lexer { position: 0, chars };
        assert(r.rest() =~= input@);
        r
    }

    /// The character `n` places ahead of the current one, if there is one.
    fn peek_at(&self, n: usize) -> (r: Option<char>)
        requires
            self.wf(),
        ensures
            r == (if n < self.rest().len() {
                Some(self.rest()[n as int])
            } else {
                None
            }),
    {
        if n < self.chars.len() - self.position {
            Some(self.chars[self.position + n])
        } else {
            None
        }
    }

    /// The current character, if any.
    fn peek(&self) -> (r: Option<char>)
        requires
            self.wf(),
        ensures
            r == (if self.rest().len() > 0 {
                Some(self.rest()[0])
            } else {
                None
            }),
    {
        self.peek_at(0)
    }

    /// Moves past the current character and returns it.
    fn advance(&mut self) -> (r: Option<char>)
        requires
            old(self).wf(),
        ensures
            final(self).wf(),
            final(self).chars == old(self).chars,
            final(self).position == old(self).position + (if old(self).rest().len() > 0 {
                1int
            } else {
                0int
            }),
            r == (if old(self).rest().len() > 0 {
                Some(old(self).rest()[0])
            } else {
                None
            }),
            final(self).rest() == (if old(self).rest().len() > 0 {
                old(self).rest().drop_first()
            } else {
                old(self).rest()
            }),
    {
        if self.position < self.chars.len() {
            let ch = self.chars[self.position];
            self.position = self.position + 1;
            assert(self.rest() =~= old(self).rest().drop_first());
            Some(ch)
        } else {
            None
        }
    }
    /// Reads one word from the current position, resolving quotes and escapes.
    /// Stops before an unquoted blank or operator character, or at the end of
    /// the input (an open quote there simply ends the word).
    fn read_word(&mut self) -> (word: String)
        requires
            old(self).wf(),
        ensures
            final(self).wf(),
            final(self).chars == old(self).chars,
            (word@, final(self).position - old(self).position) == scan_word(
                old(self).rest(),
                QuoteMode::Plain,
                seq![],
            ),
    {
        let mut word = String::new();
        let mut mode = QuoteMode::Plain;
        let ghost whole = scan_word(self.rest(), QuoteMode::Plain, seq![]);
        proof {
            lemma_scan_word_bounds(self.rest(), QuoteMode::Plain, seq![]);
        }
        loop
            invariant
                self.wf(),
                self.chars == old(self).chars,
                old(self).position <= self.position,
                scan_word(self.rest(), mode, word@) == (
                    whole.0,
                    whole.1 - (self.position - old(self).position),
                ),
            ensures
                self.wf(),
                self.chars == old(self).chars,
                whole == (word@, self.position - old(self).position),
            decreases self.chars.len() - self.position,
        {
            match self.peek() {
                None => {
                    break ;
                },
                Some(ch) => {
                    match mode {
                        QuoteMode::Plain => {
                            if ch == ' ' || ch == '\t' || ch == '>' || ch == '|' || ch == '&' {
                                break ;
                            } else if ch == '\'' {
                                self.advance();
                                mode = QuoteMode::Single;
                            } else if ch == '"' {
                                self.advance();
                                mode = QuoteMode::Double;
                            } else if ch == '\\' {
                                self.advance();
                                // Outside quotes a backslash takes the next character as it is.
                                match self.advance() {
                                    Some(next) => push_char(&mut word, next),
                                    None => {},
                                }
                            } else {
                                push_char(&mut word, ch);
                                self.advance();
                            }
                        },
                        QuoteMode::Single => {
                            self.advance();
                            if ch == '\'' {
                                mode = QuoteMode::Plain;
                            } else {
                                push_char(&mut word, ch);
                            }
                        },
                        QuoteMode::Double => {
                            self.advance();
                            if ch == '"' {
                                mode = QuoteMode::Plain;
                            } else if ch == '\\' {
                                // Inside double quotes only `"` and `\` can be escaped.
                                match self.peek() {
                                    Some(next) => {
                                        if next == '"' || next == '\\' {
                                            self.advance();
                                            push_char(&mut word, next);
                                        } else {
                                            push_char(&mut word, ch);
                                        }
                                    },
                                    None => push_char(&mut word, ch),
                                }
                            } else {
                                push_char(&mut word, ch);
                            }
                        },
                    }
                },
            }
        }
        word
    }

    /// Splits the rest of the input into tokens.
    fn tokenize(&mut self) -> (tokens: Vec<Token>)
        requires
            old(self).wf(),
        ensures
            tokens@.map_values(|t: Token| t@) == lex(old(self).rest()),
    {
        let mut tokens: Vec<Token> = Vec::new();
        loop
            invariant
                self.wf(),
                lex(old(self).rest()) == tokens@.map_values(|t: Token| t@) + lex(self.rest()),
            ensures
                lex(old(self).rest()) == tokens@.map_values(|t: Token| t@),
            decreases self.chars.len() - self.position,
        {
            let ghost s = self.rest();
            let ghost seen = tokens@.map_values(|t: Token| t@);
            match self.peek() {
                None => {
                    assert(seen + lex(s) =~= seen);
                    break ;
                },
                Some(ch) => {
                    if ch == ' ' || ch == '\t' {
                        self.advance();
                    } else if ch == '>' {
                        self.advance();
                        let append = self.peek() == Some('>');
                        if append {
                            self.advance();
                        }
                        assert(self.rest() =~= s.subrange(redirect_len(s, 0), s.len() as int));
                        tokens.push(Token::OutputRedirect(append));
                    } else if (ch == '1' || ch == '2') && self.peek_at(1) == Some('>') {
                        self.advance();
                        self.advance();
                        let append = self.peek() == Some('>');
                        if append {
                            self.advance();
                        }
                        assert(self.rest() =~= s.subrange(redirect_len(s, 1), s.len() as int));
                        if ch == '2' {
                            tokens.push(Token::ErrorRedirect(append));
                        } else {
                            tokens.push(Token::OutputRedirect(append));
                        }
                    } else if ch == '|' {
                        self.advance();
                        tokens.push(Token::Pipe);
                    } else if ch == '&' {
                        self.advance();
                        tokens.push(Token::Background);
                    } else {
                        let start = self.position;
                        let word = self.read_word();
                        proof {
                            lemma_scan_word_bounds(s, QuoteMode::Plain, seq![]);
                        }
                        assert(self.rest() =~= s.subrange(
                            (self.position - start) as int,
                            s.len() as int,
                        ));
                        if !word.as_str().is_empty() {
                            tokens.push(Token::Word(word));
                        }
                    }
                    assert(tokens@.map_values(|t: Token| t@) + lex(self.rest()) =~= seen + lex(s));
                },
            }
        }
        tokens
    }
}


/// A parsed command line: the command name, its arguments, and where its
/// standard output and standard error go.
#[derive(Debug, PartialEq, Eq)]
pub struct CommandParts {
    /// The command name; empty only when the line held no word.
    pub command: String,
    /// The arguments, in order.
    pub args: Vec<String>,
    /// Target file of standard output, and whether to append to it.
    pub output_redirect: Option<(String, bool)>,
    /// Target file of standard error, and whether to append to it.
    pub error_redirect: Option<(String, bool)>,
}

/// The mathematical value of [`CommandParts`].
#[verifier::ext_equal]
pub struct CommandView {
    pub command: Seq<char>,
    pub args: Seq<Seq<char>>,
    pub output_redirect: Option<(Seq<char>, bool)>,
    pub error_redirect: Option<(Seq<char>, bool)>,
}

pub open spec fn redirect_view(r: Option<(String, bool)>) -> Option<(Seq<char>, bool)> {
    match r {
        Some((p, a)) => Some((p@, a)),
        None => None,
    }
}

impl View for CommandParts {
    type V = CommandView;

    open spec fn view(&self) -> CommandView {
        CommandView {
            command: self.command@,
            args: self.args@.map_values(|a: String| a@),
            output_redirect: redirect_view(self.output_redirect),
            error_redirect: redirect_view(self.error_redirect),
        }
    }
}

/// The command of a line without words or redirections.
pub open spec fn empty_command() -> CommandView {
    CommandView { command: seq![], args: seq![], output_redirect: None, error_redirect: None }
}

/// Adds the tokens `toks`, left to right, to the partly built command `acc`.
/// The first word names the command and later words are arguments. A
/// redirection takes the token after it, which sets the target when it is a
/// word and is dropped otherwise; a later redirection of the same stream wins.
/// Pipe and background tokens are skipped.
pub open spec fn assemble_from(toks: Seq<TokenView>, acc: CommandView) -> CommandView
    decreases toks.len(),
{
    if toks.len() == 0 {
        acc
    } else {
        match toks[0] {
            TokenView::Word(w) => {
                let next = if acc.command.len() == 0 {
                    CommandView { command: w, ..acc }
                } else {
                    CommandView { args: acc.args.push(w), ..acc }
                };
                assemble_from(toks.drop_first(), next)
            },
            TokenView::OutputRedirect(append) => {
                if toks.len() < 2 {
                    acc
                } else {
                    let next = match toks[1] {
                        TokenView::Word(p) => CommandView {
                            output_redirect: Some((p, append)),
                            ..acc
                        },
                        _ => acc,
                    };
                    assemble_from(toks.subrange(2, toks.len() as int), next)
                }
            },
            TokenView::ErrorRedirect(append) => {
                if toks.len() < 2 {
                    acc
                } else {
                    let next = match toks[1] {
                        TokenView::Word(p) => CommandView {
                            error_redirect: Some((p, append)),
                            ..acc
                        },
                        _ => acc,
                    };
                    assemble_from(toks.subrange(2, toks.len() as int), next)
                }
            },
            _ => assemble_from(toks.drop_first(), acc),
        }
    }
}

/// The command that a token stream describes.
pub open spec fn assembled(toks: Seq<TokenView>) -> CommandView {
    assemble_from(toks, empty_command())
}

/// The command that a line describes.
pub open spec fn parsed(line: Seq<char>) -> CommandView {
    assembled(lex(line))
}

/// Splits a command line into tokens.
pub fn tokenize(line: &str) -> (tokens: Vec<Token>)
    ensures
        tokens@.map_values(|t: Token| t@) == lex(line@),
{
    let mut lexer = Lexer::new(line);
    lexer.tokenize()
}

/// Builds the command that a token stream describes.
pub fn assemble(tokens: &Vec<Token>) -> (parts: CommandParts)
    ensures
        parts@ == assembled(tokens@.map_values(|t: Token| t@)),
{
    let ghost toks = tokens@.map_values(|t: Token| t@);
    let mut parts = CommandParts {
        command: String::new(),
        args: Vec::new(),
        output_redirect: None,
        error_redirect: None,
    };
    assert(parts@ == empty_command()) by {
        assert(parts@.args =~= Seq::<Seq<char>>::empty());
    }
    let mut i: usize = 0;
    assert(toks.subrange(0, toks.len() as int) =~= toks);
    while i < tokens.len()
        invariant
            i <= tokens.len(),
            toks == tokens@.map_values(|t: Token| t@),
            assemble_from(toks, empty_command()) == assemble_from(
                toks.subrange(i as int, toks.len() as int),
                parts@,
            ),
        decreases tokens.len() - i,
    {
        let ghost rest = toks.subrange(i as int, toks.len() as int);
        let ghost before = parts@;
        assert(rest[0] == tokens@[i as int]@);
        match &tokens[i] {
            Token::Word(w) => {
                if parts.command.as_str().is_empty() {
                    parts.command = w.clone();
                } else {
                    parts.args.push(w.clone());
                    assert(parts@.args =~= before.args.push(w@));
                }
                i = i + 1;
                assert(toks.subrange(i as int, toks.len() as int) =~= rest.drop_first());
            },
            Token::OutputRedirect(append) => {
                if i + 1 < tokens.len() {
                    assert(rest[1] == tokens@[i + 1]@);
                    match &tokens[i + 1] {
                        Token::Word(p) => {
                            parts.output_redirect = Some((p.clone(), *append));
                        },
                        _ => {},
                    }
                    i = i + 2;
                    assert(toks.subrange(i as int, toks.len() as int) =~= rest.subrange(
                        2,
                        rest.len() as int,
                    ));
                } else {
                    i = i + 1;
                    assert(toks.subrange(i as int, toks.len() as int) =~= Seq::<TokenView>::empty());
                }
            },
            Token::ErrorRedirect(append) => {
                if i + 1 < tokens.len() {
                    assert(rest[1] == tokens@[i + 1]@);
                    match &tokens[i + 1] {
                        Token::Word(p) => {
                            parts.error_redirect = Some((p.clone(), *append));
                        },
                        _ => {},
                    }
                    i = i + 2;
                    assert(toks.subrange(i as int, toks.len() as int) =~= rest.subrange(
                        2,
                        rest.len() as int,
                    ));
                } else {
                    i = i + 1;
                    assert(toks.subrange(i as int, toks.len() as int) =~= Seq::<TokenView>::empty());
                }
            },
            _ => {
                i = i + 1;
                assert(toks.subrange(i as int, toks.len() as int) =~= rest.drop_first());
            },
        }
    }
    assert(toks.subrange(i as int, toks.len() as int) =~= Seq::<TokenView>::empty());
    parts
}

/// Turns command lines into [`CommandParts`].
pub struct CommandParser;

impl CommandParser {
    /// Parses a command line: splits it into tokens, then builds the command
    /// from them.
    pub fn parse(input: &str) -> (parts: CommandParts)
        ensures
            parts@ == parsed(input@),
    {
        let tokens = tokenize(input);
        assemble(&tokens)
    }
}


/// Whether `c` needs a backslash before it to stand for itself outside quotes.
pub open spec fn needs_escape(c: char) -> bool {
    ends_word(c) || c == '\'' || c == '"' || c == '\\'
}

/// How one character of a word is written outside quotes.
pub open spec fn escape_char(c: char) -> Seq<char> {
    if needs_escape(c) {
        seq!['\\', c]
    } else {
        seq![c]
    }
}

/// A word written so that, outside quotes, it reads back as itself.
pub open spec fn escaped(w: Seq<char>) -> Seq<char>
    decreases w.len(),
{
    if w.len() == 0 {
        seq![]
    } else {
        escape_char(w[0]) + escaped(w.drop_first())
    }
}

/// The words, each escaped and preceded by a space.
pub open spec fn word_pieces(ws: Seq<Seq<char>>) -> Seq<char>
    decreases ws.len(),
{
    if ws.len() == 0 {
        seq![]
    } else {
        seq![' '] + escaped(ws[0]) + word_pieces(ws.drop_first())
    }
}

/// A redirection written as a space, the operator `op` (doubled `>` when
/// appending), a space and the escaped target.
pub open spec fn redirect_piece(op: Seq<char>, r: Option<(Seq<char>, bool)>) -> Seq<char> {
    match r {
        Some((target, append)) => seq![' '] + op + (if append {
            seq!['>']
        } else {
            seq![]
        }) + seq![' '] + escaped(target),
        None => seq![],
    }
}

/// The command name followed by the arguments; a missing name is left out.
pub open spec fn command_words(c: CommandView) -> Seq<Seq<char>> {
    if c.command.len() == 0 {
        c.args
    } else {
        seq![c.command] + c.args
    }
}

/// Every part of the command's line, each preceded by a space.
pub open spec fn spaced_line(c: CommandView) -> Seq<char> {
    word_pieces(command_words(c)) + redirect_piece(seq!['>'], c.output_redirect)
        + redirect_piece(seq!['2', '>'], c.error_redirect)
}

/// The canonical line of a command: the name, the arguments and then the
/// output and error redirections, separated by single spaces, with every
/// character that the tokenizer treats specially escaped by a backslash.
pub open spec fn command_line(c: CommandView) -> Seq<char> {
    let s = spaced_line(c);
    if s.len() == 0 {
        s
    } else {
        s.drop_first()
    }
}

/// The word tokens of `ws`, in order.
pub open spec fn word_tokens(ws: Seq<Seq<char>>) -> Seq<TokenView> {
    ws.map_values(|w: Seq<char>| TokenView::Word(w))
}

/// The operator token and the target word of a redirection, if there is one.
pub open spec fn redirect_tokens(r: Option<(Seq<char>, bool)>, to_stderr: bool) -> Seq<TokenView> {
    match r {
        Some((target, append)) => seq![
            if to_stderr {
                TokenView::ErrorRedirect(append)
            } else {
                TokenView::OutputRedirect(append)
            },
            TokenView::Word(target),
        ],
        None => seq![],
    }
}

/// Whether `t` is a word without characters.
pub open spec fn is_empty_word(t: TokenView) -> bool {
    match t {
        TokenView::Word(w) => w.len() == 0,
        _ => false,
    }
}

/// The shape of every parsed command: words are never empty, and arguments
/// only come after a command name.
pub open spec fn well_formed_command(c: CommandView) -> bool {
    &&& (c.command.len() == 0 ==> c.args.len() == 0)
    &&& forall|i: int| 0 <= i < c.args.len() ==> (#[trigger] c.args[i]).len() > 0
    &&& (c.output_redirect matches Some((target, _)) ==> target.len() > 0)
    &&& (c.error_redirect matches Some((target, _)) ==> target.len() > 0)
}

proof fn lemma_escaped_push(w: Seq<char>, c: char)
    ensures
        escaped(w.push(c)) == escaped(w) + escape_char(c),
    decreases w.len(),
{
    if w.len() == 0 {
        assert(w.push(c).drop_first() =~= Seq::<char>::empty());
        assert(w.push(c)[0] == c);
        assert(escaped(w.push(c)) == escape_char(c) + escaped(w.push(c).drop_first()));
        assert(escaped(w.push(c)) =~= escaped(w) + escape_char(c));
    } else {
        assert(w.push(c).drop_first() =~= w.drop_first().push(c));
        assert(w.push(c)[0] == w[0]);
        lemma_escaped_push(w.drop_first(), c);
        assert(escaped(w.push(c)) == escape_char(w[0]) + escaped(w.drop_first().push(c)));
        assert(escaped(w) == escape_char(w[0]) + escaped(w.drop_first()));
        assert(escaped(w.push(c)) =~= escaped(w) + escape_char(c));
    }
}

/// An escaped word starts with a backslash or with its own first character,
/// which then needs no escape.
proof fn lemma_escaped_head(w: Seq<char>)
    requires
        w.len() > 0,
    ensures
        escaped(w).len() > 0,
        escaped(w)[0] == '\\' || (escaped(w)[0] == w[0] && !needs_escape(w[0])),
{
    assert(escaped(w) == escape_char(w[0]) + escaped(w.drop_first()));
}

proof fn lemma_scan_escaped(w: Seq<char>, rest: Seq<char>, acc: Seq<char>)
    requires
        rest.len() == 0 || ends_word(rest[0]),
    ensures
        scan_word(escaped(w) + rest, QuoteMode::Plain, acc) == (acc + w, escaped(w).len() as int),
    decreases w.len(),
{
    let s = escaped(w) + rest;
    if w.len() == 0 {
        assert(s =~= rest);
        assert(acc + w =~= acc);
    } else {
        let c = w[0];
        let tail = escaped(w.drop_first()) + rest;
        lemma_scan_escaped(w.drop_first(), rest, acc.push(c));
        assert(acc.push(c) + w.drop_first() =~= acc + w);
        if needs_escape(c) {
            assert(s =~= seq!['\\', c] + tail);
            assert(s.drop_first().drop_first() =~= tail);
        } else {
            assert(s =~= seq![c] + tail);
            assert(s.drop_first() =~= tail);
        }
    }
}

proof fn lemma_lex_blank(rest: Seq<char>)
    ensures
        lex(seq![' '] + rest) == lex(rest),
{
    assert((seq![' '] + rest).drop_first() =~= rest);
}

proof fn lemma_lex_escaped(w: Seq<char>, rest: Seq<char>)
    requires
        w.len() > 0,
        rest.len() == 0 || is_blank(rest[0]),
    ensures
        lex(escaped(w) + rest) == seq![TokenView::Word(w)] + lex(rest),
{
    let s = escaped(w) + rest;
    lemma_escaped_head(w);
    lemma_scan_escaped(w, rest, seq![]);
    assert(seq![] + w =~= w);
    if s[0] == '1' || s[0] == '2' {
        // The character after an unescaped first character cannot be `>`.
        if w.len() > 1 {
            lemma_escaped_head(w.drop_first());
            assert(escaped(w) == escape_char(w[0]) + escaped(w.drop_first()));
            assert(s[1] == escaped(w.drop_first())[0]);
        } else {
            assert(w.drop_first() =~= Seq::<char>::empty());
            assert(escaped(w) == escape_char(w[0]) + escaped(w.drop_first()));
        }
    }
    assert(s.subrange(escaped(w).len() as int, s.len() as int) =~= rest);
}

proof fn lemma_lex_word_pieces(ws: Seq<Seq<char>>, rest: Seq<char>)
    requires
        forall|i: int| 0 <= i < ws.len() ==> (#[trigger] ws[i]).len() > 0,
        rest.len() == 0 || is_blank(rest[0]),
    ensures
        lex(word_pieces(ws) + rest) == word_tokens(ws) + lex(rest),
    decreases ws.len(),
{
    if ws.len() == 0 {
        assert(word_pieces(ws) + rest =~= rest);
        assert(word_tokens(ws) + lex(rest) =~= lex(rest));
    } else {
        let later = word_pieces(ws.drop_first()) + rest;
        assert(ws[0].len() > 0);
        lemma_lex_word_pieces(ws.drop_first(), rest);
        if ws.len() > 1 {
            assert(word_pieces(ws.drop_first()) == seq![' '] + escaped(ws.drop_first()[0])
                + word_pieces(ws.drop_first().drop_first()));
        } else {
            assert(word_pieces(ws.drop_first()) =~= Seq::<char>::empty());
            assert(later =~= rest);
        }
        assert(word_pieces(ws) + rest =~= seq![' '] + (escaped(ws[0]) + later));
        lemma_lex_blank(escaped(ws[0]) + later);
        lemma_lex_escaped(ws[0], later);
        assert(word_tokens(ws) =~= seq![TokenView::Word(ws[0])] + word_tokens(ws.drop_first()));
        assert(lex(word_pieces(ws) + rest) =~= word_tokens(ws) + lex(rest));
    }
}

proof fn lemma_lex_redirect_piece(r: Option<(Seq<char>, bool)>, to_stderr: bool, rest: Seq<char>)
    requires
        r matches Some((target, _)) ==> target.len() > 0,
        rest.len() == 0 || is_blank(rest[0]),
    ensures
        lex(redirect_piece(if to_stderr { seq!['2', '>'] } else { seq!['>'] }, r) + rest)
            == redirect_tokens(r, to_stderr) + lex(rest),
{
    let op = if to_stderr {
        seq!['2', '>']
    } else {
        seq!['>']
    };
    match r {
        Some((target, append)) => {
            let more = if append {
                seq!['>']
            } else {
                seq![]
            };
            let after = seq![' '] + (escaped(target) + rest);
            let body = op + more + after;
            assert(redirect_piece(op, r) + rest =~= seq![' '] + body);
            lemma_lex_blank(body);
            lemma_lex_blank(escaped(target) + rest);
            lemma_lex_escaped(target, rest);
            let k: int = if to_stderr {
                1
            } else {
                0
            };
            assert(body.subrange(redirect_len(body, k), body.len() as int) =~= after);
            assert(lex(body) =~= redirect_tokens(r, to_stderr) + lex(rest));
        },
        None => {
            assert(redirect_piece(op, r) + rest =~= rest);
            assert(redirect_tokens(r, to_stderr) + lex(rest) =~= lex(rest));
        },
    }
}

/// The tokens of a command's canonical line.
proof fn lemma_lex_command_line(c: CommandView)
    requires
        well_formed_command(c),
    ensures
        lex(command_line(c)) == word_tokens(command_words(c)) + redirect_tokens(
            c.output_redirect,
            false,
        ) + redirect_tokens(c.error_redirect, true),
{
    let ws = command_words(c);
    let out = redirect_piece(seq!['>'], c.output_redirect);
    let err = redirect_piece(seq!['2', '>'], c.error_redirect);
    assert forall|i: int| 0 <= i < ws.len() implies (#[trigger] ws[i]).len() > 0 by {
        if c.command.len() > 0 && i > 0 {
            assert(ws[i] == c.args[i - 1]);
        }
    }
    lemma_lex_redirect_piece(c.error_redirect, true, seq![]);
    assert(err + seq![] =~= err);
    assert(lex(err) =~= redirect_tokens(c.error_redirect, true));
    lemma_lex_redirect_piece(c.output_redirect, false, err);
    lemma_lex_word_pieces(ws, out + err);
    let s = spaced_line(c);
    assert(s =~= word_pieces(ws) + (out + err));
    if s.len() > 0 {
        assert(s[0] == ' ') by {
            if ws.len() > 0 {
                assert(word_pieces(ws) == seq![' '] + escaped(ws[0]) + word_pieces(
                    ws.drop_first(),
                ));
            } else {
                assert(word_pieces(ws) =~= Seq::<char>::empty());
            }
        }
        assert(s =~= seq![' '] + s.drop_first());
        lemma_lex_blank(s.drop_first());
    }
    assert(lex(command_line(c)) =~= word_tokens(ws) + redirect_tokens(c.output_redirect, false)
        + redirect_tokens(c.error_redirect, true));
}

/// Arguments that follow a command name are appended in order.
proof fn lemma_assemble_args(ws: Seq<Seq<char>>, rest: Seq<TokenView>, acc: CommandView)
    requires
        acc.command.len() > 0,
    ensures
        assemble_from(word_tokens(ws) + rest, acc) == assemble_from(
            rest,
            CommandView { args: acc.args + ws, ..acc },
        ),
    decreases ws.len(),
{
    if ws.len() == 0 {
        assert(word_tokens(ws) + rest =~= rest);
        assert(acc.args + ws =~= acc.args);
        assert(CommandView { args: acc.args + ws, ..acc } =~= acc);
    } else {
        let toks = word_tokens(ws) + rest;
        assert(toks[0] == TokenView::Word(ws[0]));
        assert(toks.drop_first() =~= word_tokens(ws.drop_first()) + rest);
        let next = CommandView { args: acc.args.push(ws[0]), ..acc };
        lemma_assemble_args(ws.drop_first(), rest, next);
        assert(next.args + ws.drop_first() =~= acc.args + ws);
    }
}

/// A redirection followed by its target sets that target.
proof fn lemma_assemble_redirect(
    r: Option<(Seq<char>, bool)>,
    to_stderr: bool,
    rest: Seq<TokenView>,
    acc: CommandView,
)
    ensures
        assemble_from(redirect_tokens(r, to_stderr) + rest, acc) == assemble_from(
            rest,
            match r {
                Some(_) => if to_stderr {
                    CommandView { error_redirect: r, ..acc }
                } else {
                    CommandView { output_redirect: r, ..acc }
                },
                None => acc,
            },
        ),
{
    let toks = redirect_tokens(r, to_stderr) + rest;
    match r {
        Some(_) => {
            assert(toks.subrange(2, toks.len() as int) =~= rest);
        },
        None => {
            assert(toks =~= rest);
        },
    }
}

/// Tokens `head` in front of `tail`, neither holding an empty word, hold none.
proof fn lemma_no_empty_words_concat(head: Seq<TokenView>, tail: Seq<TokenView>)
    requires
        forall|i: int| 0 <= i < head.len() ==> !is_empty_word(#[trigger] head[i]),
        forall|i: int| 0 <= i < tail.len() ==> !is_empty_word(#[trigger] tail[i]),
    ensures
        forall|i: int| 0 <= i < (head + tail).len() ==> !is_empty_word(#[trigger] (head + tail)[i]),
{
    assert forall|i: int| 0 <= i < (head + tail).len() implies !is_empty_word(
        #[trigger] (head + tail)[i],
    ) by {
        if i >= head.len() {
            assert((head + tail)[i] == tail[i - head.len()]);
        }
    }
}

proof fn lemma_lex_no_empty_words(s: Seq<char>)
    ensures
        forall|i: int| 0 <= i < lex(s).len() ==> !is_empty_word(#[trigger] lex(s)[i]),
    decreases s.len(),
{
    if s.len() > 0 {
        let c = s[0];
        if is_blank(c) {
            lemma_lex_no_empty_words(s.drop_first());
        } else if c == '>' {
            let rest = s.subrange(redirect_len(s, 0), s.len() as int);
            lemma_lex_no_empty_words(rest);
            lemma_no_empty_words_concat(seq![redirect_token(s, 0, false)], lex(rest));
        } else if (c == '1' || c == '2') && s.len() > 1 && s[1] == '>' {
            let rest = s.subrange(redirect_len(s, 1), s.len() as int);
            lemma_lex_no_empty_words(rest);
            lemma_no_empty_words_concat(seq![redirect_token(s, 1, c == '2')], lex(rest));
        } else if c == '|' {
            lemma_lex_no_empty_words(s.drop_first());
            lemma_no_empty_words_concat(seq![TokenView::Pipe], lex(s.drop_first()));
        } else if c == '&' {
            lemma_lex_no_empty_words(s.drop_first());
            lemma_no_empty_words_concat(seq![TokenView::Background], lex(s.drop_first()));
        } else {
            lemma_scan_word_bounds(s, QuoteMode::Plain, seq![]);
            let (w, n) = scan_word(s, QuoteMode::Plain, seq![]);
            let rest = s.subrange(n, s.len() as int);
            lemma_lex_no_empty_words(rest);
            if w.len() > 0 {
                lemma_no_empty_words_concat(seq![TokenView::Word(w)], lex(rest));
            }
        }
    }
}

proof fn lemma_assemble_well_formed(toks: Seq<TokenView>, acc: CommandView)
    requires
        well_formed_command(acc),
        forall|i: int| 0 <= i < toks.len() ==> !is_empty_word(#[trigger] toks[i]),
    ensures
        well_formed_command(assemble_from(toks, acc)),
    decreases toks.len(),
{
    if toks.len() > 0 {
        assert(!is_empty_word(toks[0]));
        if toks.len() >= 2 {
            assert(!is_empty_word(toks[1]));
            let later = toks.subrange(2, toks.len() as int);
            assert forall|i: int| 0 <= i < later.len() implies !is_empty_word(
                #[trigger] later[i],
            ) by {
                assert(later[i] == toks[i + 2]);
            }
        }
        let first = toks.drop_first();
        assert forall|i: int| 0 <= i < first.len() implies !is_empty_word(#[trigger] first[i]) by {
            assert(first[i] == toks[i + 1]);
        }
        match toks[0] {
            TokenView::Word(w) => {
                let next = if acc.command.len() == 0 {
                    CommandView { command: w, ..acc }
                } else {
                    CommandView { args: acc.args.push(w), ..acc }
                };
                assert(well_formed_command(next)) by {
                    if acc.command.len() > 0 {
                        assert forall|i: int| 0 <= i < next.args.len() implies (
                        #[trigger] next.args[i]).len() > 0 by {
                            if i < acc.args.len() {
                                assert(next.args[i] == acc.args[i]);
                            }
                        }
                    }
                }
                lemma_assemble_well_formed(first, next);
            },
            TokenView::OutputRedirect(append) => {
                if toks.len() >= 2 {
                    let next = match toks[1] {
                        TokenView::Word(p) => CommandView {
                            output_redirect: Some((p, append)),
                            ..acc
                        },
                        _ => acc,
                    };
                    lemma_assemble_well_formed(toks.subrange(2, toks.len() as int), next);
                }
            },
            TokenView::ErrorRedirect(append) => {
                if toks.len() >= 2 {
                    let next = match toks[1] {
                        TokenView::Word(p) => CommandView {
                            error_redirect: Some((p, append)),
                            ..acc
                        },
                        _ => acc,
                    };
                    lemma_assemble_well_formed(toks.subrange(2, toks.len() as int), next);
                }
            },
            _ => {
                lemma_assemble_well_formed(first, acc);
            },
        }
    }
}

/// Every command that a line parses to is well formed.
pub proof fn lemma_parsed_well_formed(line: Seq<char>)
    ensures
        well_formed_command(parsed(line)),
{
    lemma_lex_no_empty_words(line);
    lemma_assemble_well_formed(lex(line), empty_command());
}

/// Writing a parsed command back as its canonical line and parsing that line
/// gives the same command again: for every input line,
/// `parsed(command_line(parsed(line))) == parsed(line)`.
pub proof fn lemma_reparse_canonical_line(line: Seq<char>)
    ensures
        parsed(command_line(parsed(line))) == parsed(line),
{
    let c = parsed(line);
    lemma_parsed_well_formed(line);
    lemma_lex_command_line(c);
    let out = redirect_tokens(c.output_redirect, false);
    let err = redirect_tokens(c.error_redirect, true);
    let ws = command_words(c);
    let toks = word_tokens(ws) + out + err;
    assert(lex(command_line(c)) == toks);
    let named = CommandView { command: c.command, ..empty_command() };
    let with_args = CommandView { args: c.args, ..named };
    let with_out = match c.output_redirect {
        Some(_) => CommandView { output_redirect: c.output_redirect, ..with_args },
        None => with_args,
    };
    lemma_assemble_redirect(c.error_redirect, true, seq![], with_out);
    lemma_assemble_redirect(c.output_redirect, false, err, with_args);
    assert(err + seq![] =~= err);
    assert(assemble_from(Seq::<TokenView>::empty(), with_out) == with_out);
    if c.command.len() == 0 {
        assert(ws.len() == 0);
        assert(toks =~= out + err);
        assert(c.args =~= Seq::<Seq<char>>::empty());
        assert(with_args =~= empty_command());
    } else {
        assert(toks[0] == TokenView::Word(c.command));
        assert(toks.drop_first() =~= word_tokens(c.args) + (out + err));
        lemma_assemble_args(c.args, out + err, named);
        assert(named.args + c.args =~= c.args);
    }
    assert(assemble_from(toks, empty_command()) =~= c);
}

proof fn lemma_word_pieces_push(ws: Seq<Seq<char>>, w: Seq<char>)
    ensures
        word_pieces(ws.push(w)) == word_pieces(ws) + (seq![' '] + escaped(w)),
    decreases ws.len(),
{
    if ws.len() == 0 {
        assert(ws.push(w).drop_first() =~= Seq::<Seq<char>>::empty());
        assert(ws.push(w)[0] == w);
        assert(word_pieces(ws.push(w)) == seq![' '] + escaped(w) + word_pieces(
            ws.push(w).drop_first(),
        ));
        assert(word_pieces(ws.push(w)) =~= word_pieces(ws) + (seq![' '] + escaped(w)));
    } else {
        assert(ws.push(w).drop_first() =~= ws.drop_first().push(w));
        assert(ws.push(w)[0] == ws[0]);
        lemma_word_pieces_push(ws.drop_first(), w);
        assert(word_pieces(ws.push(w)) == seq![' '] + escaped(ws[0]) + word_pieces(
            ws.drop_first().push(w),
        ));
        assert(word_pieces(ws) == seq![' '] + escaped(ws[0]) + word_pieces(ws.drop_first()));
        assert(word_pieces(ws.push(w)) =~= word_pieces(ws) + (seq![' '] + escaped(w)));
    }
}

/// Appends `w` with every special character escaped.
fn push_escaped(out: &mut String, w: &String)
    ensures
        final(out)@ == old(out)@ + escaped(w@),
{
    let cs = chars_of(w.as_str());
    let ghost start = out@;
    let mut i: usize = 0;
    while i < cs.len()
        invariant
            i <= cs.len(),
            out@ == start + escaped(cs@.take(i as int)),
        decreases cs.len() - i,
    {
        let c = cs[i];
        if c == ' ' || c == '\t' || c == '>' || c == '|' || c == '&' || c == '\'' || c == '"' || c
            == '\\' {
            push_char(out, '\\');
        }
        push_char(out, c);
        proof {
            lemma_escaped_push(cs@.take(i as int), c);
            assert(cs@.take(i + 1) =~= cs@.take(i as int).push(c));
        }
        i = i + 1;
        assert(out@ =~= start + escaped(cs@.take(i as int)));
    }
    assert(cs@.take(cs.len() as int) =~= w@);
}

/// Appends a space and the escaped word `w`.
fn push_word_piece(out: &mut String, w: &String)
    ensures
        final(out)@ == old(out)@ + (seq![' '] + escaped(w@)),
{
    push_char(out, ' ');
    push_escaped(out, w);
    assert(final(out)@ =~= old(out)@ + (seq![' '] + escaped(w@)));
}

/// Appends the redirection `r` written with operator `>` (or `2>` for standard error).
fn push_redirect_piece(out: &mut String, r: &Option<(String, bool)>, to_stderr: bool)
    ensures
        final(out)@ == old(out)@ + redirect_piece(
            if to_stderr {
                seq!['2', '>']
            } else {
                seq!['>']
            },
            redirect_view(*r),
        ),
{
    match r {
        Some((target, append)) => {
            push_char(out, ' ');
            if to_stderr {
                push_char(out, '2');
            }
            push_char(out, '>');
            if *append {
                push_char(out, '>');
            }
            push_word_piece(out, target);
            assert(final(out)@ =~= old(out)@ + redirect_piece(
                if to_stderr {
                    seq!['2', '>']
                } else {
                    seq!['>']
                },
                redirect_view(*r),
            ));
        },
        None => {
            assert(final(out)@ =~= old(out)@ + Seq::<char>::empty());
        },
    }
}

impl CommandParts {
    /// The command as its canonical line (see [`command_line`]).
    pub fn to_command_line(&self) -> (line: String)
        ensures
            line@ == command_line(self@),
    {
        let ghost ws = command_words(self@);
        let ghost skipped: int = if self.command@.len() == 0 {
            0
        } else {
            1
        };
        let mut spaced = String::new();
        if !self.command.as_str().is_empty() {
            push_word_piece(&mut spaced, &self.command);
            proof {
                lemma_word_pieces_push(Seq::empty(), self.command@);
                assert(ws.take(1) =~= Seq::<Seq<char>>::empty().push(self.command@));
            }
        } else {
            assert(ws.take(0) =~= Seq::<Seq<char>>::empty());
        }
        let mut i: usize = 0;
        while i < self.args.len()
            invariant
                i <= self.args.len(),
                ws == command_words(self@),
                ws.len() == skipped + self.args.len(),
                forall|k: int| 0 <= k < self.args.len() ==> ws[skipped + k] == (
                #[trigger] self.args@[k])@,
                spaced@ == word_pieces(ws.take(skipped + i)),
            decreases self.args.len() - i,
        {
            push_word_piece(&mut spaced, &self.args[i]);
            proof {
                lemma_word_pieces_push(ws.take(skipped + i), self.args@[i as int]@);
                assert(ws.take(skipped + i + 1) =~= ws.take(skipped + i).push(
                    self.args@[i as int]@,
                ));
            }
            i = i + 1;
        }
        assert(ws.take(skipped + i) =~= ws);
        push_redirect_piece(&mut spaced, &self.output_redirect, false);
        push_redirect_piece(&mut spaced, &self.error_redirect, true);
        assert(spaced@ =~= spaced_line(self@));
        let cs = chars_of(spaced.as_str());
        if cs.len() == 0 {
            spaced
        } else {
            let line = string_from(&cs, 1);
            assert(line@ =~= spaced@.drop_first());
            line
        }
    }
}

} // verus!
