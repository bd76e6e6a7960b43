//! Lexical scanner for a POSIX-shell-like command language.
//!
//! The scanner walks the source text once, with one character of lookahead,
//! and turns it into a flat sequence of typed tokens: words (with escapes
//! already resolved), run-length-collapsed layout characters, quote
//! delimiters and operators. Comments (`#` up to and including the next
//! newline) produce no tokens. The whole behaviour is pinned down by the
//! spec-level scanner [`scan_spec`], which [`parse`] is proved to implement.

use vstd::prelude::*;
use vstd::string::StrSliceExecFns;

verus! {

/// The error cases on which a scan aborts; no partial token sequence is
/// returned on failure.
#[derive(Debug, PartialEq, Eq)]
pub enum ParseError {
    /// A character that needs a companion was alone: a `&` not followed by
    /// a second `&`.
    InvalidCharacter(char),
    /// A backslash was followed by a character outside the escape whitelist
    /// (backslash, space).
    InvalidEscapeSequence(char),
    /// A backslash stood as the final character of the input, with nothing
    /// to escape.
    EmptyEscapeSequence(),
}

/// The kind of a quote-delimiter token.
#[derive(Debug, Clone, Copy, PartialEq, Eq)]
pub enum QuoteType {
    Single,
    Double,
    Backtick,
}

/// One classified unit of lexical output.
#[derive(Debug, PartialEq, Eq)]
pub enum Token {
    /// A maximal run of non-separator characters, escapes resolved.
    Word(String),
    /// A run of consecutive newlines, collapsed with its count.
    NewLine(u32),
    /// One of `( ) [ ] { }`, emitted individually.
    Parenthesis(char),
    /// A single quote-delimiter character.
    Quote(QuoteType),
    DollarSign,
    Pipe,
    And,
    Or,
    Semicolon,
    Greater,
    Less,
    /// A run of consecutive spaces, collapsed with its count.
    Whitespace(u32),
    /// A run of consecutive tabs, collapsed with its count.
    Tab(u32),
    SingleAmpersand,
}

impl Clone for Token {
    /// A token's copy equals the token itself.
    fn clone(&self) -> (r: Token)
        ensures
            r == *self,
    {
        match self {
            Token::Word(s) => Token::Word(s.clone()),
            Token::NewLine(n) => Token::NewLine(*n),
            Token::Parenthesis(c) => Token::Parenthesis(*c),
            Token::Quote(q) => Token::Quote(*q),
            Token::DollarSign => Token::DollarSign,
            Token::Pipe => Token::Pipe,
            Token::And => Token::And,
            Token::Or => Token::Or,
            Token::Semicolon => Token::Semicolon,
            Token::Greater => Token::Greater,
            Token::Less => Token::Less,
            Token::Whitespace(n) => Token::Whitespace(*n),
            Token::Tab(n) => Token::Tab(*n),
            Token::SingleAmpersand => Token::SingleAmpersand,
        }
    }
}

/// The ordered output of one scan; order equals source order.
pub type Tokens = Vec<Token>;

/// The mathematical form of a [`Token`]: word text as a character sequence,
/// run counts as unbounded naturals.
#[verifier::ext_equal]
pub enum TokenV {
    Word(Seq<char>),
    NewLine(nat),
    Parenthesis(char),
    Quote(QuoteType),
    DollarSign,
    Pipe,
    And,
    Or,
    Semicolon,
    Greater,
    Less,
    Whitespace(nat),
    Tab(nat),
    SingleAmpersand,
}

impl View for Token {
    type V = TokenV;

    open spec fn view(&self) -> TokenV {
        match self {
            Token::Word(s) => TokenV::Word(s@),
            Token::NewLine(n) => TokenV::NewLine(*n as nat),
            Token::Parenthesis(c) => TokenV::Parenthesis(*c),
            Token::Quote(q) => TokenV::Quote(*q),
            Token::DollarSign => TokenV::DollarSign,
            Token::Pipe => TokenV::Pipe,
            Token::And => TokenV::And,
            Token::Or => TokenV::Or,
            Token::Semicolon => TokenV::Semicolon,
            Token::Greater => TokenV::Greater,
            Token::Less => TokenV::Less,
            Token::Whitespace(n) => TokenV::Whitespace(*n as nat),
            Token::Tab(n) => TokenV::Tab(*n as nat),
            Token::SingleAmpersand => TokenV::SingleAmpersand,
        }
    }
}

/// The views of a token sequence, element by element.
pub open spec fn tokens_view(ts: Seq<Token>) -> Seq<TokenV> {
    ts.map_values(|t: Token| t@)
}

/// A character that ends an in-progress word without being consumed by it.
pub open spec fn is_word_separator(c: char) -> bool {
    c == ' ' || c == '"' || c == '\'' || c == '`' || c == '\n' || c == '<' || c == '>' || c == ';'
}

/// A bracket character, tokenized individually.
pub open spec fn is_bracket(c: char) -> bool {
    c == '(' || c == ')' || c == '[' || c == ']' || c == '{' || c == '}'
}

/// A layout character whose runs are collapsed into one counted token.
pub open spec fn is_layout_char(c: char) -> bool {
    c == '\n' || c == ' ' || c == '\t'
}

/// The counted token that stands for a run of the layout character `c`.
pub open spec fn run_token(c: char, n: nat) -> TokenV {
    if c == '\n' {
        TokenV::NewLine(n)
    } else if c == ' ' {
        TokenV::Whitespace(n)
    } else {
        TokenV::Tab(n)
    }
}

/// Whether `t` is the counted token kind that collapses runs of `c`.
pub open spec fn is_run_of(t: TokenV, c: char) -> bool {
    match t {
        TokenV::NewLine(_) => c == '\n',
        TokenV::Whitespace(_) => c == ' ',
        TokenV::Tab(_) => c == '\t',
        _ => false,
    }
}

/// The count a run token carries; zero for every other kind.
pub open spec fn run_len(t: TokenV) -> nat {
    match t {
        TokenV::NewLine(n) => n,
        TokenV::Whitespace(n) => n,
        TokenV::Tab(n) => n,
        _ => 0,
    }
}

/// Append one layout character `c` to the token sequence: merge it into the
/// last token when that is already a run of `c`, else start a run of one.
pub open spec fn push_run(acc: Seq<TokenV>, c: char) -> Seq<TokenV> {
    if acc.len() > 0 && is_run_of(acc.last(), c) {
        acc.drop_last().push(run_token(c, run_len(acc.last()) + 1))
    } else {
        acc.push(run_token(c, 1))
    }
}

/// Where the spec scanner stands between characters: dispatching on the next
/// character, discarding a comment, or accumulating a word.
pub enum ScanState {
    Dispatch,
    Comment,
    InWord(Seq<char>),
}

/// A rank that lets the word state hand control back to dispatch (on a
/// separator) without consuming a character.
pub open spec fn state_rank(st: ScanState) -> nat {
    match st {
        ScanState::InWord(_) => 1,
        _ => 0,
    }
}

/// The scanner as a mathematical state machine over the remaining input `s`
/// and the tokens `acc` already produced. Entering the word state always
/// consumes the word's first character (or its first escape) on the spot.
pub open spec fn scan_from(s: Seq<char>, st: ScanState, acc: Seq<TokenV>) -> Result<
    Seq<TokenV>,
    ParseError,
>
    decreases s.len(), state_rank(st),
{
    match st {
        ScanState::Comment => {
            if s.len() == 0 {
                Ok(acc)
            } else if s[0] == '\n' {
                scan_from(s.skip(1), ScanState::Dispatch, acc)
            } else {
                scan_from(s.skip(1), ScanState::Comment, acc)
            }
        },
        ScanState::InWord(w) => {
            if s.len() == 0 {
                Ok(acc.push(TokenV::Word(w)))
            } else if s[0] == '\\' {
                if s.len() == 1 {
                    Err(ParseError::EmptyEscapeSequence())
                } else if s[1] == '\\' {
                    scan_from(s.skip(2), ScanState::InWord(w.push('\\')), acc)
                } else if s[1] == ' ' {
                    scan_from(s.skip(2), ScanState::InWord(w.push(' ')), acc)
                } else {
                    Err(ParseError::InvalidEscapeSequence(s[1]))
                }
            } else if is_word_separator(s[0]) {
                scan_from(s, ScanState::Dispatch, acc.push(TokenV::Word(w)))
            } else {
                scan_from(s.skip(1), ScanState::InWord(w.push(s[0])), acc)
            }
        },
        ScanState::Dispatch => {
            if s.len() == 0 {
                Ok(acc)
            } else {
                let c = s[0];
                if is_layout_char(c) {
                    scan_from(s.skip(1), ScanState::Dispatch, push_run(acc, c))
                } else if c == '$' {
                    scan_from(s.skip(1), ScanState::Dispatch, acc.push(TokenV::DollarSign))
                } else if is_bracket(c) {
                    scan_from(s.skip(1), ScanState::Dispatch, acc.push(TokenV::Parenthesis(c)))
                } else if c == '\'' {
                    scan_from(
                        s.skip(1),
                        ScanState::Dispatch,
                        acc.push(TokenV::Quote(QuoteType::Single)),
                    )
                } else if c == '"' {
                    scan_from(
                        s.skip(1),
                        ScanState::Dispatch,
                        acc.push(TokenV::Quote(QuoteType::Double)),
                    )
                } else if c == '`' {
                    scan_from(
                        s.skip(1),
                        ScanState::Dispatch,
                        acc.push(TokenV::Quote(QuoteType::Backtick)),
                    )
                } else if c == '#' {
                    scan_from(s.skip(1), ScanState::Comment, acc)
                } else if c == '|' {
                    if s.len() >= 2 && s[1] == '|' {
                        scan_from(s.skip(2), ScanState::Dispatch, acc.push(TokenV::Or))
                    } else {
                        scan_from(s.skip(1), ScanState::Dispatch, acc.push(TokenV::Pipe))
                    }
                } else if c == '&' {
                    if s.len() >= 2 && s[1] == '&' {
                        scan_from(s.skip(2), ScanState::Dispatch, acc.push(TokenV::And))
                    } else {
                        Err(ParseError::InvalidCharacter('&'))
                    }
                } else if c == '>' {
                    scan_from(s.skip(1), ScanState::Dispatch, acc.push(TokenV::Greater))
                } else if c == '<' {
                    scan_from(s.skip(1), ScanState::Dispatch, acc.push(TokenV::Less))
                } else if c == ';' {
                    scan_from(s.skip(1), ScanState::Dispatch, acc.push(TokenV::Semicolon))
                } else if c == '\\' {
                    if s.len() == 1 {
                        Err(ParseError::EmptyEscapeSequence())
                    } else if s[1] == '\\' {
                        scan_from(s.skip(2), ScanState::InWord(seq!['\\']), acc)
                    } else if s[1] == ' ' {
                        scan_from(s.skip(2), ScanState::InWord(seq![' ']), acc)
                    } else {
                        Err(ParseError::InvalidEscapeSequence(s[1]))
                    }
                } else {
                    scan_from(s.skip(1), ScanState::InWord(seq![c]), acc)
                }
            }
        },
    }
}

/// What scanning the whole input yields: the token sequence, or the error on
/// which the scan aborts.
pub open spec fn scan_spec(s: Seq<char>) -> Result<Seq<TokenV>, ParseError> {
    scan_from(s, ScanState::Dispatch, Seq::empty())
}

/// The sequence holding `n` copies of the character `c`.
pub open spec fn char_repeat(c: char, n: nat) -> Seq<char> {
    Seq::new(n, |j: int| c)
}

/// The literal source text a token stands for, with run-length tokens
/// expanded to their repeated character.
pub open spec fn token_text(t: TokenV) -> Seq<char> {
    match t {
        TokenV::Word(w) => w,
        TokenV::NewLine(n) => char_repeat('\n', n),
        TokenV::Whitespace(n) => char_repeat(' ', n),
        TokenV::Tab(n) => char_repeat('\t', n),
        TokenV::Parenthesis(c) => seq![c],
        TokenV::Quote(QuoteType::Single) => seq!['\''],
        TokenV::Quote(QuoteType::Double) => seq!['"'],
        TokenV::Quote(QuoteType::Backtick) => seq!['`'],
        TokenV::DollarSign => seq!['$'],
        TokenV::Pipe => seq!['|'],
        TokenV::Or => seq!['|', '|'],
        TokenV::And => seq!['&', '&'],
        TokenV::SingleAmpersand => seq!['&'],
        TokenV::Semicolon => seq![';'],
        TokenV::Greater => seq!['>'],
        TokenV::Less => seq!['<'],
    }
}

/// The literal source text of a whole token sequence, in order.
pub open spec fn tokens_text(ts: Seq<TokenV>) -> Seq<char>
    decreases ts.len(),
{
    if ts.len() == 0 {
        Seq::empty()
    } else {
        tokens_text(ts.drop_last()) + token_text(ts.last())
    }
}

/// An ASCII letter, `a` to `z` or `A` to `Z`.
pub open spec fn is_letter(c: char) -> bool {
    ('a' <= c && c <= 'z') || ('A' <= c && c <= 'Z')
}

/// Every run token in `ts` carries a count of at most `b`.
spec fn run_counts_le(ts: Seq<TokenV>, b: int) -> bool {
    forall|j: int| 0 <= j < ts.len() ==> run_len(ts[j]) <= b
}

proof fn lemma_run_counts_push(ts: Seq<TokenV>, t: TokenV, b1: int, b2: int)
    requires
        run_counts_le(ts, b1),
        b1 <= b2,
        run_len(t) <= b2,
    ensures
        run_counts_le(ts.push(t), b2),
{
    assert forall|j: int| 0 <= j < ts.push(t).len() implies run_len(ts.push(t)[j]) <= b2 by {
        if j < ts.len() {
            assert(run_len(ts[j]) <= b1);
        }
    }
}

proof fn lemma_run_counts_merge(ts: Seq<TokenV>, t: TokenV, b1: int, b2: int)
    requires
        ts.len() > 0,
        run_counts_le(ts, b1),
        b1 <= b2,
        run_len(t) <= b2,
    ensures
        run_counts_le(ts.drop_last().push(t), b2),
{
    assert forall|j: int| 0 <= j < ts.drop_last().push(t).len() implies run_len(
        ts.drop_last().push(t)[j],
    ) <= b2 by {
        if j < ts.len() - 1 {
            assert(ts.drop_last().push(t)[j] == ts[j]);
            assert(run_len(ts[j]) <= b1);
        }
    }
}

/// Collects the characters of `s` into a vector, one per element.
pub(crate) fn to_char_vec(s: &str) -> (r: Vec<char>)
    ensures
        r@ == s@,
{
    let n = s.unicode_len();
    let mut r: Vec<char> = Vec::new();
    let mut i: usize = 0;
    while i < n
        invariant
            i <= n,
            n == s@.len(),
            r@ == s@.take(i as int),
        decreases n - i,
    {
        let c = s.get_char(i);
        r.push(c);
        i = i + 1;
        proof {
            assert(r@ =~= s@.take(i as int));
        }
    }
    proof {
        assert(s@.take(n as int) =~= s@);
    }
    r
}

/// Relies on std's `String: FromIterator<char>`: collecting characters
/// yields the string that holds exactly those characters in order.
#[verifier::external_body]
pub(crate) fn chars_to_string(cs: &Vec<char>) -> (r: String)
    ensures
        r@ == cs@,
{
    cs.iter().collect()
}

/// Whether `c` ends an in-progress word; see [`is_word_separator`].
fn is_separator_char(c: char) -> (r: bool)
    ensures
        r == is_word_separator(c),
{
    c == ' ' || c == '"' || c == '\'' || c == '`' || c == '\n' || c == '<' || c == '>' || c == ';'
}

/// Scans the whole source text into its token sequence, or the error on
/// which the scan aborts. The result is exactly what the spec-level scanner
/// [`scan_spec`] yields on the source's characters.
pub fn parse(source: String) -> (r: Result<Tokens, ParseError>)
    requires
        source@.len() <= u32::MAX,
    ensures
        match r {
            Ok(ts) => scan_spec(source@) == Ok::<Seq<TokenV>, ParseError>(tokens_view(ts@)),
            Err(e) => scan_spec(source@) == Err::<Seq<TokenV>, ParseError>(e),
        },
{
    let cs = to_char_vec(source.as_str());
    let n = cs.len();
    let mut toks: Vec<Token> = Vec::new();
    let mut i: usize = 0;
    proof {
        assert(cs@.skip(0) =~= cs@);
        assert(tokens_view(toks@) =~= Seq::<TokenV>::empty());
    }
    while i < n
        invariant
            n == cs@.len(),
            cs@ == source@,
            n <= u32::MAX,
            i <= n,
            scan_from(cs@.skip(i as int), ScanState::Dispatch, tokens_view(toks@)) == scan_spec(
                source@,
            ),
            run_counts_le(tokens_view(toks@), i as int),
        decreases n - i,
    {
        let ghost i_entry = i as int;
        let ghost rest = cs@.skip(i as int);
        let ghost tv = tokens_view(toks@);
        proof {
            assert(rest[0] == cs@[i as int]);
            assert(rest.skip(1) =~= cs@.skip(i as int + 1));
            if i + 2 <= n {
                assert(rest[1] == cs@[i as int + 1]);
                assert(rest.skip(2) =~= cs@.skip(i as int + 2));
            }
        }
        let c = cs[i];
        if c == '\n' || c == ' ' || c == '\t' {
            let ln = toks.len();
            let mut prev: Option<u32> = None;
            if ln > 0 {
                match &toks[ln - 1] {
                    Token::NewLine(k) => {
                        if c == '\n' {
                            prev = Some(*k);
                        }
                    },
                    Token::Whitespace(k) => {
                        if c == ' ' {
                            prev = Some(*k);
                        }
                    },
                    Token::Tab(k) => {
                        if c == '\t' {
                            prev = Some(*k);
                        }
                    },
                    _ => {},
                }
            }
            match prev {
                Some(k) => {
                    proof {
                        assert(run_len(tv[ln - 1]) == k);
                    }
                    toks.pop();
                    if c == '\n' {
                        toks.push(Token::NewLine(k + 1));
                    } else if c == ' ' {
                        toks.push(Token::Whitespace(k + 1));
                    } else {
                        toks.push(Token::Tab(k + 1));
                    }
                    proof {
                        assert(tokens_view(toks@) =~= push_run(tv, c));
                        lemma_run_counts_merge(tv, run_token(c, (k + 1) as nat), i as int, i as int + 1);
                    }
                },
                None => {
                    if c == '\n' {
                        toks.push(Token::NewLine(1));
                    } else if c == ' ' {
                        toks.push(Token::Whitespace(1));
                    } else {
                        toks.push(Token::Tab(1));
                    }
                    proof {
                        assert(tokens_view(toks@) =~= push_run(tv, c));
                        lemma_run_counts_push(tv, run_token(c, 1), i as int, i as int + 1);
                    }
                },
            }
            i = i + 1;
        } else if c == '$' {
            toks.push(Token::DollarSign);
            i = i + 1;
            proof {
                assert(tokens_view(toks@) =~= tv.push(TokenV::DollarSign));
                lemma_run_counts_push(tv, TokenV::DollarSign, (i - 1) as int, i as int);
            }
        } else if c == '(' || c == ')' || c == '[' || c == ']' || c == '{' || c == '}' {
            toks.push(Token::Parenthesis(c));
            i = i + 1;
            proof {
                assert(tokens_view(toks@) =~= tv.push(TokenV::Parenthesis(c)));
                lemma_run_counts_push(tv, TokenV::Parenthesis(c), (i - 1) as int, i as int);
            }
        } else if c == '\'' {
            toks.push(Token::Quote(QuoteType::Single));
            i = i + 1;
            proof {
                assert(tokens_view(toks@) =~= tv.push(TokenV::Quote(QuoteType::Single)));
                lemma_run_counts_push(tv, TokenV::Quote(QuoteType::Single), (i - 1) as int, i as int);
            }
        } else if c == '"' {
            toks.push(Token::Quote(QuoteType::Double));
            i = i + 1;
            proof {
                assert(tokens_view(toks@) =~= tv.push(TokenV::Quote(QuoteType::Double)));
                lemma_run_counts_push(tv, TokenV::Quote(QuoteType::Double), (i - 1) as int, i as int);
            }
        } else if c == '`' {
            toks.push(Token::Quote(QuoteType::Backtick));
            i = i + 1;
            proof {
                assert(tokens_view(toks@) =~= tv.push(TokenV::Quote(QuoteType::Backtick)));
                lemma_run_counts_push(
                    tv,
                    TokenV::Quote(QuoteType::Backtick),
                    (i - 1) as int,
                    i as int,
                );
            }
        } else if c == '#' {
            i = i + 1;
            let mut in_comment = true;
            while in_comment && i < n
                invariant
                    n == cs@.len(),
                    cs@ == source@,
                    n <= u32::MAX,
                    i <= n,
                    i > i_entry,
                    run_counts_le(tokens_view(toks@), i as int),
                    in_comment ==> scan_from(
                        cs@.skip(i as int),
                        ScanState::Comment,
                        tokens_view(toks@),
                    ) == scan_spec(source@),
                    !in_comment ==> scan_from(
                        cs@.skip(i as int),
                        ScanState::Dispatch,
                        tokens_view(toks@),
                    ) == scan_spec(source@),
                decreases n - i,
            {
                proof {
                    assert(cs@.skip(i as int)[0] == cs@[i as int]);
                    assert(cs@.skip(i as int).skip(1) =~= cs@.skip(i as int + 1));
                }
                let d = cs[i];
                i = i + 1;
                if d == '\n' {
                    in_comment = false;
                }
            }
            proof {
                if in_comment {
                    assert(cs@.skip(i as int) =~= Seq::<char>::empty());
                }
            }
        } else if c == '|' {
            if i + 1 < n && cs[i + 1] == '|' {
                toks.push(Token::Or);
                i = i + 2;
                proof {
                    assert(tokens_view(toks@) =~= tv.push(TokenV::Or));
                    lemma_run_counts_push(tv, TokenV::Or, (i - 2) as int, i as int);
                }
            } else {
                toks.push(Token::Pipe);
                i = i + 1;
                proof {
                    assert(tokens_view(toks@) =~= tv.push(TokenV::Pipe));
                    lemma_run_counts_push(tv, TokenV::Pipe, (i - 1) as int, i as int);
                }
            }
        } else if c == '&' {
            if i + 1 < n && cs[i + 1] == '&' {
                toks.push(Token::And);
                i = i + 2;
                proof {
                    assert(tokens_view(toks@) =~= tv.push(TokenV::And));
                    lemma_run_counts_push(tv, TokenV::And, (i - 2) as int, i as int);
                }
            } else {
                return Err(ParseError::InvalidCharacter('&'));
            }
        } else if c == '>' {
            toks.push(Token::Greater);
            i = i + 1;
            proof {
                assert(tokens_view(toks@) =~= tv.push(TokenV::Greater));
                lemma_run_counts_push(tv, TokenV::Greater, (i - 1) as int, i as int);
            }
        } else if c == '<' {
            toks.push(Token::Less);
            i = i + 1;
            proof {
                assert(tokens_view(toks@) =~= tv.push(TokenV::Less));
                lemma_run_counts_push(tv, TokenV::Less, (i - 1) as int, i as int);
            }
        } else if c == ';' {
            toks.push(Token::Semicolon);
            i = i + 1;
            proof {
                assert(tokens_view(toks@) =~= tv.push(TokenV::Semicolon));
                lemma_run_counts_push(tv, TokenV::Semicolon, (i - 1) as int, i as int);
            }
        } else {
            // A word begins: its first character, or first escape, is
            // consumed here, then the word loop takes over.
            let mut word: Vec<char> = Vec::new();
            if c == '\\' {
                if i + 1 == n {
                    return Err(ParseError::EmptyEscapeSequence());
                }
                let d = cs[i + 1];
                if d == '\\' {
                    word.push('\\');
                    i = i + 2;
                } else if d == ' ' {
                    word.push(' ');
                    i = i + 2;
                } else {
                    return Err(ParseError::InvalidEscapeSequence(d));
                }
            } else {
                word.push(c);
                i = i + 1;
            }
            proof {
                assert(word@ =~= seq![word@[0]]);
            }
            let mut in_word = true;
            while in_word
                invariant
                    n == cs@.len(),
                    cs@ == source@,
                    n <= u32::MAX,
                    i <= n,
                    i > i_entry,
                    run_counts_le(tokens_view(toks@), i as int),
                    in_word ==> scan_from(
                        cs@.skip(i as int),
                        ScanState::InWord(word@),
                        tokens_view(toks@),
                    ) == scan_spec(source@),
                    !in_word ==> scan_from(
                        cs@.skip(i as int),
                        ScanState::Dispatch,
                        tokens_view(toks@).push(TokenV::Word(word@)),
                    ) == scan_spec(source@),
                decreases n - i, (if in_word { 1int } else { 0int }),
            {
                if i == n {
                    proof {
                        assert(cs@.skip(i as int) =~= Seq::<char>::empty());
                    }
                    in_word = false;
                } else {
                    proof {
                        assert(cs@.skip(i as int)[0] == cs@[i as int]);
                        assert(cs@.skip(i as int).skip(1) =~= cs@.skip(i as int + 1));
                        if i + 2 <= n {
                            assert(cs@.skip(i as int)[1] == cs@[i as int + 1]);
                            assert(cs@.skip(i as int).skip(2) =~= cs@.skip(i as int + 2));
                        }
                    }
                    let d = cs[i];
                    if d == '\\' {
                        if i + 1 == n {
                            return Err(ParseError::EmptyEscapeSequence());
                        }
                        let e = cs[i + 1];
                        if e == '\\' {
                            word.push('\\');
                            i = i + 2;
                        } else if e == ' ' {
                            word.push(' ');
                            i = i + 2;
                        } else {
                            return Err(ParseError::InvalidEscapeSequence(e));
                        }
                    } else if is_separator_char(d) {
                        in_word = false;
                    } else {
                        word.push(d);
                        i = i + 1;
                    }
                }
            }
            let ghost tv2 = tokens_view(toks@);
            toks.push(Token::Word(chars_to_string(&word)));
            proof {
                assert(tokens_view(toks@) =~= tv2.push(TokenV::Word(word@)));
                lemma_run_counts_push(tv2, TokenV::Word(word@), i as int, i as int);
            }
        }
    }
    proof {
        assert(cs@.skip(n as int) =~= Seq::<char>::empty());
    }
    Ok(toks)
}

proof fn lemma_letters_stay_in_word(s: Seq<char>, w: Seq<char>, acc: Seq<TokenV>)
    requires
        forall|j: int| 0 <= j < s.len() ==> is_letter(s[j]),
    ensures
        scan_from(s, ScanState::InWord(w), acc) == Ok::<Seq<TokenV>, ParseError>(
            acc.push(TokenV::Word(w + s)),
        ),
    decreases s.len(),
{
    if s.len() == 0 {
        assert(w + s =~= w);
    } else {
        assert(is_letter(s[0]));
        lemma_letters_stay_in_word(s.skip(1), w.push(s[0]), acc);
        assert(w.push(s[0]) + s.skip(1) =~= w + s);
    }
}

/// Law: an input of nothing but letters scans to exactly one `Word` token
/// holding the whole input. (The empty input is out: it scans to no token.)
pub proof fn lemma_letters_single_word(s: Seq<char>)
    requires
        s.len() > 0,
        forall|j: int| 0 <= j < s.len() ==> is_letter(s[j]),
    ensures
        scan_spec(s) == Ok::<Seq<TokenV>, ParseError>(seq![TokenV::Word(s)]),
{
    assert(is_letter(s[0]));
    lemma_letters_stay_in_word(s.skip(1), seq![s[0]], Seq::empty());
    assert(seq![s[0]] + s.skip(1) =~= s);
    assert(Seq::<TokenV>::empty().push(TokenV::Word(s)) =~= seq![TokenV::Word(s)]);
}

proof fn lemma_tokens_text_push(ts: Seq<TokenV>, t: TokenV)
    ensures
        tokens_text(ts.push(t)) == tokens_text(ts) + token_text(t),
{
    assert(ts.push(t).drop_last() =~= ts);
    assert(ts.push(t).last() == t);
}

proof fn lemma_tokens_text_push_run(acc: Seq<TokenV>, c: char)
    requires
        is_layout_char(c),
    ensures
        tokens_text(push_run(acc, c)) == tokens_text(acc) + seq![c],
{
    if acc.len() > 0 && is_run_of(acc.last(), c) {
        let merged = run_token(c, run_len(acc.last()) + 1);
        lemma_tokens_text_push(acc.drop_last(), merged);
        assert(token_text(merged) =~= token_text(acc.last()) + seq![c]);
        lemma_tokens_text_push(acc.drop_last(), acc.last());
        assert(acc.drop_last().push(acc.last()) =~= acc);
        assert(tokens_text(acc.drop_last()) + (token_text(acc.last()) + seq![c])
            =~= (tokens_text(acc.drop_last()) + token_text(acc.last())) + seq![c]);
    } else {
        lemma_tokens_text_push(acc, run_token(c, 1));
        assert(token_text(run_token(c, 1)) =~= seq![c]);
    }
}

proof fn lemma_round_trip_from(s: Seq<char>, st: ScanState, acc: Seq<TokenV>, ts: Seq<TokenV>)
    requires
        forall|j: int| 0 <= j < s.len() ==> s[j] != '#' && s[j] != '\\',
        !(st is Comment),
        scan_from(s, st, acc) == Ok::<Seq<TokenV>, ParseError>(ts),
    ensures
        st is Dispatch ==> tokens_text(ts) == tokens_text(acc) + s,
        st matches ScanState::InWord(w) ==> tokens_text(ts) == tokens_text(acc) + w + s,
    decreases s.len(), state_rank(st),
{
    if s.len() == 0 {
        match st {
            ScanState::Dispatch => {
                assert(tokens_text(acc) + s =~= tokens_text(acc));
            },
            ScanState::InWord(w) => {
                lemma_tokens_text_push(acc, TokenV::Word(w));
                assert(tokens_text(acc) + w + s =~= tokens_text(acc) + w);
            },
            ScanState::Comment => {},
        }
    } else {
        let c = s[0];
        assert(c != '#' && c != '\\');
        assert(forall|j: int|
            0 <= j < s.skip(1).len() ==> s.skip(1)[j] != '#' && s.skip(1)[j] != '\\');
        match st {
            ScanState::Dispatch => {
                if is_layout_char(c) {
                    lemma_round_trip_from(s.skip(1), ScanState::Dispatch, push_run(acc, c), ts);
                    lemma_tokens_text_push_run(acc, c);
                    assert((tokens_text(acc) + seq![c]) + s.skip(1) =~= tokens_text(acc) + s);
                } else if c == '$' || is_bracket(c) || c == '\'' || c == '"' || c == '`' || (c
                    == '|' && !(s.len() >= 2 && s[1] == '|')) || c == '>' || c == '<' || c == ';' {
                    let t = if c == '$' {
                        TokenV::DollarSign
                    } else if is_bracket(c) {
                        TokenV::Parenthesis(c)
                    } else if c == '\'' {
                        TokenV::Quote(QuoteType::Single)
                    } else if c == '"' {
                        TokenV::Quote(QuoteType::Double)
                    } else if c == '`' {
                        TokenV::Quote(QuoteType::Backtick)
                    } else if c == '|' {
                        TokenV::Pipe
                    } else if c == '>' {
                        TokenV::Greater
                    } else if c == '<' {
                        TokenV::Less
                    } else {
                        TokenV::Semicolon
                    };
                    lemma_round_trip_from(s.skip(1), ScanState::Dispatch, acc.push(t), ts);
                    lemma_tokens_text_push(acc, t);
                    assert(token_text(t) =~= seq![c]);
                    assert((tokens_text(acc) + seq![c]) + s.skip(1) =~= tokens_text(acc) + s);
                } else if c == '|' || c == '&' {
                    // the doubled operators: two characters, one token
                    assert(s.len() >= 2 && s[1] == c);
                    let t = if c == '|' {
                        TokenV::Or
                    } else {
                        TokenV::And
                    };
                    assert(forall|j: int|
                        0 <= j < s.skip(2).len() ==> s.skip(2)[j] != '#' && s.skip(2)[j] != '\\');
                    lemma_round_trip_from(s.skip(2), ScanState::Dispatch, acc.push(t), ts);
                    lemma_tokens_text_push(acc, t);
                    assert(token_text(t) =~= seq![c, c]);
                    assert(seq![c, c] + s.skip(2) =~= s);
                    assert((tokens_text(acc) + seq![c, c]) + s.skip(2) =~= tokens_text(acc) + s);
                } else {
                    // a word begins with its first character
                    lemma_round_trip_from(s.skip(1), ScanState::InWord(seq![c]), acc, ts);
                    assert(tokens_text(acc) + seq![c] + s.skip(1) =~= tokens_text(acc) + s);
                }
            },
            ScanState::InWord(w) => {
                if is_word_separator(c) {
                    lemma_round_trip_from(s, ScanState::Dispatch, acc.push(TokenV::Word(w)), ts);
                    lemma_tokens_text_push(acc, TokenV::Word(w));
                    assert((tokens_text(acc) + w) + s =~= tokens_text(acc) + w + s);
                } else {
                    lemma_round_trip_from(s.skip(1), ScanState::InWord(w.push(c)), acc, ts);
                    assert(tokens_text(acc) + w.push(c) + s.skip(1) =~= tokens_text(acc) + w + s);
                }
            },
            ScanState::Comment => {},
        }
    }
}

/// Law: on an input free of comment marks and backslashes, a successful scan
/// round-trips — concatenating the literal text each token stands for, in
/// order, reproduces the input exactly.
pub proof fn lemma_round_trip(s: Seq<char>, ts: Seq<TokenV>)
    requires
        forall|j: int| 0 <= j < s.len() ==> s[j] != '#' && s[j] != '\\',
        scan_spec(s) == Ok::<Seq<TokenV>, ParseError>(ts),
    ensures
        tokens_text(ts) == s,
{
    lemma_round_trip_from(s, ScanState::Dispatch, Seq::empty(), ts);
    assert(tokens_text(Seq::<TokenV>::empty()) + s =~= s);
}

/// Whether `a` and `b` are counted run tokens of the same layout kind.
pub open spec fn same_run_kind(a: TokenV, b: TokenV) -> bool {
    (a is NewLine && b is NewLine) || (a is Whitespace && b is Whitespace) || (a is Tab
        && b is Tab)
}

/// No two consecutive tokens are runs of the same layout kind.
pub open spec fn runs_collapsed(ts: Seq<TokenV>) -> bool {
    forall|j: int| 0 <= j && j + 1 < ts.len() ==> !same_run_kind(#[trigger] ts[j], ts[j + 1])
}

proof fn lemma_collapsed_push(acc: Seq<TokenV>, t: TokenV)
    requires
        runs_collapsed(acc),
        acc.len() > 0 ==> !same_run_kind(acc.last(), t),
    ensures
        runs_collapsed(acc.push(t)),
{
    assert forall|j: int| 0 <= j && j + 1 < acc.push(t).len() implies !same_run_kind(
        #[trigger] acc.push(t)[j],
        acc.push(t)[j + 1],
    ) by {
        if j + 1 < acc.len() {
            assert(!same_run_kind(acc[j], acc[j + 1]));
        }
    }
}

proof fn lemma_collapsed_push_run(acc: Seq<TokenV>, c: char)
    requires
        is_layout_char(c),
        runs_collapsed(acc),
    ensures
        runs_collapsed(push_run(acc, c)),
{
    if acc.len() > 0 && is_run_of(acc.last(), c) {
        let acc2 = push_run(acc, c);
        assert forall|j: int| 0 <= j && j + 1 < acc2.len() implies !same_run_kind(
            #[trigger] acc2[j],
            acc2[j + 1],
        ) by {
            if j + 2 < acc.len() {
                assert(acc2[j] == acc[j]);
                assert(acc2[j + 1] == acc[j + 1]);
            } else {
                assert(acc2[j] == acc[j]);
                assert(!same_run_kind(acc[j], acc.last()));
            }
        }
    } else {
        lemma_collapsed_push(acc, run_token(c, 1));
    }
}

proof fn lemma_scan_keeps_collapsed(s: Seq<char>, st: ScanState, acc: Seq<TokenV>, ts: Seq<TokenV>)
    requires
        runs_collapsed(acc),
        scan_from(s, st, acc) == Ok::<Seq<TokenV>, ParseError>(ts),
    ensures
        runs_collapsed(ts),
    decreases s.len(), state_rank(st),
{
    if s.len() == 0 {
        match st {
            ScanState::InWord(w) => {
                lemma_collapsed_push(acc, TokenV::Word(w));
            },
            _ => {},
        }
    } else {
        let c = s[0];
        match st {
            ScanState::Comment => {
                lemma_scan_keeps_collapsed(s.skip(1), if c == '\n' {
                    ScanState::Dispatch
                } else {
                    ScanState::Comment
                }, acc, ts);
            },
            ScanState::InWord(w) => {
                if c == '\\' {
                    if s.len() >= 2 && (s[1] == '\\' || s[1] == ' ') {
                        lemma_scan_keeps_collapsed(
                            s.skip(2),
                            ScanState::InWord(w.push(s[1])),
                            acc,
                            ts,
                        );
                    }
                } else if is_word_separator(c) {
                    lemma_collapsed_push(acc, TokenV::Word(w));
                    lemma_scan_keeps_collapsed(
                        s,
                        ScanState::Dispatch,
                        acc.push(TokenV::Word(w)),
                        ts,
                    );
                } else {
                    lemma_scan_keeps_collapsed(s.skip(1), ScanState::InWord(w.push(c)), acc, ts);
                }
            },
            ScanState::Dispatch => {
                if is_layout_char(c) {
                    lemma_collapsed_push_run(acc, c);
                    lemma_scan_keeps_collapsed(s.skip(1), ScanState::Dispatch, push_run(acc, c), ts);
                } else if c == '$' || is_bracket(c) || c == '\'' || c == '"' || c == '`' || (c
                    == '|' && !(s.len() >= 2 && s[1] == '|')) || c == '>' || c == '<' || c == ';' {
                    let t = if c == '$' {
                        TokenV::DollarSign
                    } else if is_bracket(c) {
                        TokenV::Parenthesis(c)
                    } else if c == '\'' {
                        TokenV::Quote(QuoteType::Single)
                    } else if c == '"' {
                        TokenV::Quote(QuoteType::Double)
                    } else if c == '`' {
                        TokenV::Quote(QuoteType::Backtick)
                    } else if c == '|' {
                        TokenV::Pipe
                    } else if c == '>' {
                        TokenV::Greater
                    } else if c == '<' {
                        TokenV::Less
                    } else {
                        TokenV::Semicolon
                    };
                    lemma_collapsed_push(acc, t);
                    lemma_scan_keeps_collapsed(s.skip(1), ScanState::Dispatch, acc.push(t), ts);
                } else if c == '|' || c == '&' {
                    if s.len() >= 2 && s[1] == c {
                        let t = if c == '|' {
                            TokenV::Or
                        } else {
                            TokenV::And
                        };
                        lemma_collapsed_push(acc, t);
                        lemma_scan_keeps_collapsed(s.skip(2), ScanState::Dispatch, acc.push(t), ts);
                    }
                } else if c == '#' {
                    lemma_scan_keeps_collapsed(s.skip(1), ScanState::Comment, acc, ts);
                } else if c == '\\' {
                    if s.len() >= 2 && (s[1] == '\\' || s[1] == ' ') {
                        lemma_scan_keeps_collapsed(
                            s.skip(2),
                            ScanState::InWord(seq![s[1]]),
                            acc,
                            ts,
                        );
                    }
                } else {
                    lemma_scan_keeps_collapsed(s.skip(1), ScanState::InWord(seq![c]), acc, ts);
                }
            },
        }
    }
}

/// Law: in a scanned token stream, two consecutive tokens are never counted
/// runs of the same layout kind — adjacent runs were merged.
pub proof fn lemma_runs_collapsed(s: Seq<char>, ts: Seq<TokenV>)
    requires
        scan_spec(s) == Ok::<Seq<TokenV>, ParseError>(ts),
    ensures
        runs_collapsed(ts),
{
    lemma_scan_keeps_collapsed(s, ScanState::Dispatch, Seq::empty(), ts);
}

proof fn lemma_run_continues(c: char, k: nat, acc: Seq<TokenV>, m: nat)
    requires
        is_layout_char(c),
        acc.len() > 0,
        acc.last() == run_token(c, m),
    ensures
        scan_from(char_repeat(c, k), ScanState::Dispatch, acc) == Ok::<Seq<TokenV>, ParseError>(
            acc.drop_last().push(run_token(c, m + k)),
        ),
    decreases k,
{
    let s = char_repeat(c, k);
    if k == 0 {
        assert(s.len() == 0);
        assert(acc.drop_last().push(run_token(c, m + 0)) =~= acc);
    } else {
        assert(s[0] == c);
        assert(is_run_of(acc.last(), c));
        assert(run_len(acc.last()) == m);
        let acc2 = acc.drop_last().push(run_token(c, m + 1));
        assert(push_run(acc, c) == acc2);
        assert(s.skip(1) =~= char_repeat(c, (k - 1) as nat));
        lemma_run_continues(c, (k - 1) as nat, acc2, m + 1);
        assert(acc2.drop_last() =~= acc.drop_last());
        assert(m + 1 + (k - 1) == m + k);
    }
}

/// Law: a run of `n` consecutive identical layout characters scans to
/// exactly one counted token of that kind carrying `n`, for every `n >= 1`.
pub proof fn lemma_run_collapse(c: char, n: nat)
    requires
        is_layout_char(c),
        n >= 1,
    ensures
        scan_spec(char_repeat(c, n)) == Ok::<Seq<TokenV>, ParseError>(seq![run_token(c, n)]),
{
    let s = char_repeat(c, n);
    assert(s[0] == c);
    let acc1 = Seq::<TokenV>::empty().push(run_token(c, 1));
    assert(push_run(Seq::<TokenV>::empty(), c) == acc1);
    assert(s.skip(1) =~= char_repeat(c, (n - 1) as nat));
    lemma_run_continues(c, (n - 1) as nat, acc1, 1);
    assert(acc1.drop_last() =~= Seq::<TokenV>::empty());
    assert(Seq::<TokenV>::empty().push(run_token(c, n)) =~= seq![run_token(c, n)]);
    assert(1 + (n - 1) == n);
}

} // verus!
