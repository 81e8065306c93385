//! The lexical layer of annotation arguments: identifiers, quoted literals,
//! commas and colons, separated by optional white space.

use vstd::prelude::*;
use vstd::string::*;

verus! {

/// One token of an annotation's argument text.
#[derive(Debug, Clone, PartialEq, Eq)]
pub enum Token {
    /// An identifier: a letter or underscore followed by letters, digits and
    /// underscores (ASCII only).
    Ident(String),
    /// The text between the quotes of a literal. Escapes are not part of the
    /// grammar: a literal holds neither a quote nor a backslash.
    Literal(String),
    Comma,
    Colon,
}

/// The mathematical value of a [`Token`].
pub enum TokenModel {
    Ident(Seq<char>),
    Literal(Seq<char>),
    Comma,
    Colon,
}

impl View for Token {
    type V = TokenModel;

    open spec fn view(&self) -> TokenModel {
        match self {
            Token::Ident(s) => TokenModel::Ident(s@),
            Token::Literal(s) => TokenModel::Literal(s@),
            Token::Comma => TokenModel::Comma,
            Token::Colon => TokenModel::Colon,
        }
    }
}

/// The values of a sequence of tokens, one for one.
pub open spec fn token_models(tokens: Seq<Token>) -> Seq<TokenModel> {
    Seq::new(tokens.len(), |i: int| tokens[i]@)
}

pub open spec fn is_space(c: char) -> bool {
    c == ' ' || c == '\t' || c == '\n' || c == '\r'
}

pub open spec fn is_ident_start(c: char) -> bool {
    ('a' <= c && c <= 'z') || ('A' <= c && c <= 'Z') || c == '_'
}

pub open spec fn is_ident_continue(c: char) -> bool {
    is_ident_start(c) || ('0' <= c && c <= '9')
}

/// Whether `c` may stand inside a quoted literal.
pub open spec fn is_literal_char(c: char) -> bool {
    c != '"' && c != '\\'
}

/// Whether `s` is an identifier of the annotation grammar.
pub open spec fn is_identifier(s: Seq<char>) -> bool {
    &&& s.len() > 0
    &&& is_ident_start(s[0])
    &&& forall|i: int| 0 <= i < s.len() ==> is_ident_continue(#[trigger] s[i])
}

/// Whether `c` continues a run: the text of a literal if `quoted`, an
/// identifier if not.
pub open spec fn continues_run(quoted: bool, c: char) -> bool {
    if quoted {
        is_literal_char(c)
    } else {
        is_ident_continue(c)
    }
}

/// The first position at or after `from` whose character does not continue
/// the run, or the length of `s` if there is none.
pub open spec fn run_end(s: Seq<char>, from: int, quoted: bool) -> int
    decreases s.len() - from,
{
    if 0 <= from < s.len() && continues_run(quoted, s[from]) {
        run_end(s, from + 1, quoted)
    } else {
        from
    }
}

/// A run ends within the text, holds only characters that continue it, and
/// stops at the first that does not.
pub proof fn lemma_run_end_bounds(s: Seq<char>, from: int, quoted: bool)
    requires
        0 <= from <= s.len(),
    ensures
        from <= run_end(s, from, quoted) <= s.len(),
        forall|i: int|
            from <= i < run_end(s, from, quoted) ==> continues_run(quoted, #[trigger] s[i]),
        run_end(s, from, quoted) < s.len() ==> !continues_run(
            quoted,
            s[run_end(s, from, quoted)],
        ),
    decreases s.len() - from,
{
    if from < s.len() && continues_run(quoted, s[from]) {
        lemma_run_end_bounds(s, from + 1, quoted);
    }
}

/// `token` in front of the tokens of `rest`, if there are any.
pub open spec fn prepend(token: TokenModel, rest: Option<Seq<TokenModel>>) -> Option<
    Seq<TokenModel>,
> {
    match rest {
        Some(tokens) => Some(seq![token] + tokens),
        None => None,
    }
}

/// The tokens of `s` from position `pos` on, longest match first; `None` if a
/// character fits no token or a literal is not closed.
pub open spec fn lex_from(s: Seq<char>, pos: int) -> Option<Seq<TokenModel>>
    decreases s.len() - pos,
{
    if pos < 0 || pos >= s.len() {
        Some(Seq::empty())
    } else if is_space(s[pos]) {
        lex_from(s, pos + 1)
    } else if s[pos] == ',' {
        prepend(TokenModel::Comma, lex_from(s, pos + 1))
    } else if s[pos] == ':' {
        prepend(TokenModel::Colon, lex_from(s, pos + 1))
    } else if is_ident_start(s[pos]) {
        let end = run_end(s, pos + 1, false);
        proof {
            lemma_run_end_bounds(s, pos + 1, false);
        }
        prepend(TokenModel::Ident(s.subrange(pos, end)), lex_from(s, end))
    } else if s[pos] == '"' {
        let end = run_end(s, pos + 1, true);
        proof {
            lemma_run_end_bounds(s, pos + 1, true);
        }
        if end < s.len() && s[end] == '"' {
            prepend(TokenModel::Literal(s.subrange(pos + 1, end)), lex_from(s, end + 1))
        } else {
            None
        }
    } else {
        None
    }
}

/// The tokens of `s`.
pub open spec fn lex(s: Seq<char>) -> Option<Seq<TokenModel>> {
    lex_from(s, 0)
}

/// `front` followed by the tokens of `rest`, if there are any.
pub open spec fn followed_by(front: Seq<TokenModel>, rest: Option<Seq<TokenModel>>) -> Option<
    Seq<TokenModel>,
> {
    match rest {
        Some(tokens) => Some(front + tokens),
        None => None,
    }
}

fn char_is_space(c: char) -> (r: bool)
    ensures
        r == is_space(c),
{
    c == ' ' || c == '\t' || c == '\n' || c == '\r'
}

fn char_is_ident_start(c: char) -> (r: bool)
    ensures
        r == is_ident_start(c),
{
    ('a' <= c && c <= 'z') || ('A' <= c && c <= 'Z') || c == '_'
}

fn char_is_ident_continue(c: char) -> (r: bool)
    ensures
        r == is_ident_continue(c),
{
    char_is_ident_start(c) || ('0' <= c && c <= '9')
}

/// Scans the identifier characters of `input` from `from` on and returns where
/// they end.
fn scan_ident(input: &str, from: usize, len: usize) -> (end: usize)
    requires
        len == input@.len(),
        from <= len,
    ensures
        end == run_end(input@, from as int, false),
        from <= end <= len,
{
    let mut j: usize = from;
    while j < len && char_is_ident_continue(input.get_char(j))
        invariant
            len == input@.len(),
            from <= j <= len,
            run_end(input@, from as int, false) == run_end(input@, j as int, false),
        decreases len - j,
    {
        j += 1;
    }
    j
}

/// Scans the characters of `input` that may stand in a literal from `from` on
/// and returns where they end.
fn scan_literal(input: &str, from: usize, len: usize) -> (end: usize)
    requires
        len == input@.len(),
        from <= len,
    ensures
        end == run_end(input@, from as int, true),
        from <= end <= len,
{
    let mut j: usize = from;
    while j < len && input.get_char(j) != '"' && input.get_char(j) != '\\'
        invariant
            len == input@.len(),
            from <= j <= len,
            run_end(input@, from as int, true) == run_end(input@, j as int, true),
        decreases len - j,
    {
        j += 1;
    }
    j
}

/// Whether `text` is an identifier of the annotation grammar.
pub fn is_identifier_text(text: &str) -> (r: bool)
    ensures
        r == is_identifier(text@),
{
    let len = text.unicode_len();
    if len == 0 || !char_is_ident_start(text.get_char(0)) {
        return false;
    }
    let mut i: usize = 0;
    while i < len
        invariant
            len == text@.len(),
            i <= len,
            forall|k: int| 0 <= k < i ==> is_ident_continue(#[trigger] text@[k]),
        decreases len - i,
    {
        if !char_is_ident_continue(text.get_char(i)) {
            return false;
        }
        i += 1;
    }
    true
}

/// Splits `input` into tokens.
///
/// The result is `None` exactly when `input` holds a character that begins no
/// token, or a literal that is not closed.
pub fn tokenize(input: &str) -> (r: Option<Vec<Token>>)
    ensures
        match r {
            Some(tokens) => lex(input@) == Some(token_models(tokens@)),
            None => lex(input@) is None,
        },
{
    let len = input.unicode_len();
    let mut tokens: Vec<Token> = Vec::new();
    let mut i: usize = 0;
    assert(token_models(tokens@) + lex_from(input@, 0).unwrap() =~= lex_from(input@, 0).unwrap());
    while i < len
        invariant
            len == input@.len(),
            i <= len,
            lex(input@) == followed_by(token_models(tokens@), lex_from(input@, i as int)),
        decreases len - i,
    {
        let ghost before = token_models(tokens@);
        let ghost here = lex_from(input@, i as int);
        let c = input.get_char(i);
        if char_is_space(c) {
            i += 1;
        } else if c == ',' {
            tokens.push(Token::Comma);
            i += 1;
            proof {
                lemma_push_token(before, TokenModel::Comma, lex_from(input@, i as int));
                assert(token_models(tokens@) =~= before.push(TokenModel::Comma));
            }
        } else if c == ':' {
            tokens.push(Token::Colon);
            i += 1;
            proof {
                lemma_push_token(before, TokenModel::Colon, lex_from(input@, i as int));
                assert(token_models(tokens@) =~= before.push(TokenModel::Colon));
            }
        } else if char_is_ident_start(c) {
            let end = scan_ident(input, i + 1, len);
            let text = String::from_str(input.substring_char(i, end));
            let ghost token = TokenModel::Ident(text@);
            tokens.push(Token::Ident(text));
            i = end;
            proof {
                lemma_push_token(before, token, lex_from(input@, i as int));
                assert(token_models(tokens@) =~= before.push(token));
            }
        } else if c == '"' {
            let end = scan_literal(input, i + 1, len);
            if end < len && input.get_char(end) == '"' {
                let text = String::from_str(input.substring_char(i + 1, end));
                let ghost token = TokenModel::Literal(text@);
                tokens.push(Token::Literal(text));
                i = end + 1;
                proof {
                    lemma_push_token(before, token, lex_from(input@, i as int));
                    assert(token_models(tokens@) =~= before.push(token));
                }
            } else {
                return None;
            }
        } else {
            return None;
        }
    }
    proof {
        assert(token_models(tokens@) + Seq::<TokenModel>::empty() =~= token_models(tokens@));
    }
    Some(tokens)
}

/// Moving a token from the front of what follows to the end of what came
/// before changes nothing.
proof fn lemma_push_token(front: Seq<TokenModel>, token: TokenModel, rest: Option<Seq<TokenModel>>)
    ensures
        followed_by(front, prepend(token, rest)) == followed_by(front.push(token), rest),
{
    if let Some(tokens) = rest {
        assert(front + (seq![token] + tokens) =~= front.push(token) + tokens);
    }
}

} // verus!
