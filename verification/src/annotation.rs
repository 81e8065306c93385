//! The two annotation grammars: the list of operations that a field asks for,
//! and the list of nested fields that a structure declares.

use crate::lexer::{lex, token_models, tokenize, Token, TokenModel};
use vstd::prelude::*;

verus! {

/// Why an annotation's arguments were not accepted.
#[derive(Debug, Clone, Copy, PartialEq, Eq, Structural)]
pub enum ParseError {
    /// The text holds a character that begins no token, or a literal that is
    /// not closed.
    UnexpectedCharacter,
    /// The tokens do not follow the grammar.
    UnexpectedToken,
    /// The annotation has no list of arguments in round brackets.
    MissingArguments,
}

/// The views of a sequence of strings, one for one.
pub open spec fn texts(strings: Seq<String>) -> Seq<Seq<char>> {
    Seq::new(strings.len(), |i: int| strings[i]@)
}

/// The views of a sequence of pairs of strings, one for one.
pub open spec fn text_pairs(pairs: Seq<(String, String)>) -> Seq<(Seq<char>, Seq<char>)> {
    Seq::new(pairs.len(), |i: int| (pairs[i].0@, pairs[i].1@))
}

/// Whether `tokens` is a list of identifiers separated by commas, with or
/// without a comma after the last.
pub open spec fn is_ops_list(tokens: Seq<TokenModel>) -> bool {
    forall|i: int|
        #![trigger tokens[i]]
        0 <= i < tokens.len() ==> if i % 2 == 0 {
            tokens[i] is Ident
        } else {
            tokens[i] is Comma
        }
}

/// The identifiers of a list of operations, in order.
pub open spec fn ops_of(tokens: Seq<TokenModel>) -> Seq<Seq<char>> {
    Seq::new(((tokens.len() + 1) / 2) as nat, |j: int| tokens[2 * j]->Ident_0)
}

/// What the arguments of a `mongo_ops` annotation mean.
pub open spec fn parse_ops(s: Seq<char>) -> Result<Seq<Seq<char>>, ParseError> {
    match lex(s) {
        None => Err(ParseError::UnexpectedCharacter),
        Some(tokens) => if is_ops_list(tokens) {
            Ok(ops_of(tokens))
        } else {
            Err(ParseError::UnexpectedToken)
        },
    }
}

/// Whether an identifier, a colon and a literal stand at `pos`.
pub open spec fn is_pair_at(tokens: Seq<TokenModel>, pos: int) -> bool {
    &&& 0 <= pos
    &&& pos + 3 <= tokens.len()
    &&& tokens[pos] is Ident
    &&& tokens[pos + 1] is Colon
    &&& tokens[pos + 2] is Literal
}

/// The field name and the type name of the pair at `pos`.
pub open spec fn pair_at(tokens: Seq<TokenModel>, pos: int) -> (Seq<char>, Seq<char>) {
    (tokens[pos]->Ident_0, tokens[pos + 2]->Literal_0)
}

/// Whether `tokens` is a list of `name: "Type"` pairs separated by commas,
/// with or without a comma after the last.
pub open spec fn is_pair_list(tokens: Seq<TokenModel>) -> bool {
    &&& tokens.len() % 4 == 0 || tokens.len() % 4 == 3
    &&& forall|i: int|
        #![trigger tokens[i]]
        0 <= i < tokens.len() ==> if i % 4 == 0 {
            tokens[i] is Ident
        } else if i % 4 == 1 {
            tokens[i] is Colon
        } else if i % 4 == 2 {
            tokens[i] is Literal
        } else {
            tokens[i] is Comma
        }
}

/// The pairs of a list of nested fields, in order.
pub open spec fn pairs_of(tokens: Seq<TokenModel>) -> Seq<(Seq<char>, Seq<char>)> {
    Seq::new(((tokens.len() + 1) / 4) as nat, |j: int| pair_at(tokens, 4 * j))
}

/// What the arguments of a `mongo_nested_fields` annotation mean.
pub open spec fn parse_pairs(s: Seq<char>) -> Result<Seq<(Seq<char>, Seq<char>)>, ParseError> {
    match lex(s) {
        None => Err(ParseError::UnexpectedCharacter),
        Some(tokens) => if is_pair_list(tokens) {
            Ok(pairs_of(tokens))
        } else {
            Err(ParseError::UnexpectedToken)
        },
    }
}

/// The operations that a `mongo_ops(..)` annotation names, in the order in
/// which it names them.
#[derive(Debug, Clone, PartialEq, Eq)]
pub struct MongoOps {
    pub operations: Vec<String>,
}

impl View for MongoOps {
    type V = Seq<Seq<char>>;

    open spec fn view(&self) -> Seq<Seq<char>> {
        texts(self.operations@)
    }
}

impl MongoOps {
    /// Reads the arguments of a `mongo_ops` annotation: identifiers separated
    /// by commas. Nothing is recovered from a text that does not follow the
    /// grammar.
    pub fn parse(input: &str) -> (r: Result<MongoOps, ParseError>)
        ensures
            match r {
                Ok(ops) => parse_ops(input@) == Ok::<_, ParseError>(ops@),
                Err(e) => parse_ops(input@) == Err::<Seq<Seq<char>>, _>(e),
            },
    {
        let tokens = match tokenize(input) {
            Some(tokens) => tokens,
            None => { return Err(ParseError::UnexpectedCharacter); },
        };
        let ghost models = token_models(tokens@);
        let mut operations: Vec<String> = Vec::new();
        let mut i: usize = 0;
        while i < tokens.len()
            invariant
                i <= tokens.len(),
                models == token_models(tokens@),
                operations.len() == (i + 1) / 2,
                lex(input@) == Some(models),
                forall|k: int|
                    #![trigger models[k]]
                    0 <= k < i ==> if k % 2 == 0 {
                        models[k] is Ident
                    } else {
                        models[k] is Comma
                    },
                forall|j: int|
                    0 <= j < operations.len() ==> (#[trigger] operations[j])@
                        == models[2 * j]->Ident_0,
            decreases tokens.len() - i,
        {
            assert(models[i as int] == tokens[i as int]@);
            match &tokens[i] {
                Token::Ident(name) => {
                    if i % 2 != 0 {
                        return Err(ParseError::UnexpectedToken);
                    }
                    operations.push(name.clone());
                },
                Token::Comma => {
                    if i % 2 != 1 {
                        return Err(ParseError::UnexpectedToken);
                    }
                },
                _ => {
                    return Err(ParseError::UnexpectedToken);
                },
            }
            i += 1;
        }
        let ops = MongoOps { operations };
        assert(ops@ =~= ops_of(models));
        Ok(ops)
    }
}

/// One declaration of a nested field: the field's name and the name of its
/// type.
#[derive(Debug, Clone, PartialEq, Eq)]
pub struct FieldTypePair {
    pub field_name: String,
    pub nested_type: String,
}

impl View for FieldTypePair {
    type V = (Seq<char>, Seq<char>);

    open spec fn view(&self) -> (Seq<char>, Seq<char>) {
        (self.field_name@, self.nested_type@)
    }
}

impl FieldTypePair {
    /// Reads one `name: "Type"` pair from the three tokens at `pos`.
    pub fn parse(tokens: &Vec<Token>, pos: usize) -> (r: Result<FieldTypePair, ParseError>)
        ensures
            match r {
                Ok(pair) => is_pair_at(token_models(tokens@), pos as int) && pair@ == pair_at(
                    token_models(tokens@),
                    pos as int,
                ),
                Err(e) => !is_pair_at(token_models(tokens@), pos as int) && e
                    == ParseError::UnexpectedToken,
            },
    {
        let ghost models = token_models(tokens@);
        if pos > tokens.len() || tokens.len() - pos < 3 {
            return Err(ParseError::UnexpectedToken);
        }
        assert(models[pos as int] == tokens[pos as int]@);
        assert(models[pos + 1] == tokens[pos + 1]@);
        assert(models[pos + 2] == tokens[pos + 2]@);
        let field_name = match &tokens[pos] {
            Token::Ident(name) => name.clone(),
            _ => { return Err(ParseError::UnexpectedToken); },
        };
        match &tokens[pos + 1] {
            Token::Colon => {},
            _ => { return Err(ParseError::UnexpectedToken); },
        }
        let nested_type = match &tokens[pos + 2] {
            Token::Literal(text) => text.clone(),
            _ => { return Err(ParseError::UnexpectedToken); },
        };
        Ok(FieldTypePair { field_name, nested_type })
    }
}

/// The nested fields that a `mongo_nested_fields(..)` annotation declares:
/// pairs of field name and type name, in the order of the annotation.
#[derive(Debug, Clone, PartialEq, Eq)]
pub struct NestedFieldsArgs {
    pub pairs: Vec<(String, String)>,
}

impl View for NestedFieldsArgs {
    type V = Seq<(Seq<char>, Seq<char>)>;

    open spec fn view(&self) -> Seq<(Seq<char>, Seq<char>)> {
        text_pairs(self.pairs@)
    }
}

impl NestedFieldsArgs {
    /// Reads the arguments of a `mongo_nested_fields` annotation: pairs
    /// `name: "Type"` separated by commas. Nothing is recovered from a text
    /// that does not follow the grammar.
    pub fn parse(input: &str) -> (r: Result<NestedFieldsArgs, ParseError>)
        ensures
            match r {
                Ok(args) => parse_pairs(input@) == Ok::<_, ParseError>(args@),
                Err(e) => parse_pairs(input@) == Err::<Seq<(Seq<char>, Seq<char>)>, _>(e),
            },
    {
        let tokens = match tokenize(input) {
            Some(tokens) => tokens,
            None => { return Err(ParseError::UnexpectedCharacter); },
        };
        let ghost models = token_models(tokens@);
        let mut pairs: Vec<(String, String)> = Vec::new();
        let mut pos: usize = 0;
        while pos < tokens.len()
            invariant
                pos <= tokens.len(),
                pos % 4 == 0,
                models == token_models(tokens@),
                pairs.len() == pos / 4,
                lex(input@) == Some(models),
                forall|k: int|
                    #![trigger models[k]]
                    0 <= k < pos ==> if k % 4 == 0 {
                        models[k] is Ident
                    } else if k % 4 == 1 {
                        models[k] is Colon
                    } else if k % 4 == 2 {
                        models[k] is Literal
                    } else {
                        models[k] is Comma
                    },
                forall|j: int|
                    0 <= j < pairs.len() ==> ((#[trigger] pairs[j]).0@, pairs[j].1@) == pair_at(
                        models,
                        4 * j,
                    ),
            decreases tokens.len() - pos,
        {
            let pair = match FieldTypePair::parse(&tokens, pos) {
                Ok(pair) => pair,
                Err(e) => {
                    proof {
                        if is_pair_list(models) {
                            assert(models[pos as int] is Ident);
                            assert(models[pos + 1] is Colon);
                            assert(models[pos + 2] is Literal);
                        }
                    }
                    return Err(e);
                },
            };
            pairs.push((pair.field_name, pair.nested_type));
            pos += 3;
            if pos < tokens.len() {
                assert(models[pos as int] == tokens[pos as int]@);
                match &tokens[pos] {
                    Token::Comma => {},
                    _ => {
                        assert(!(models[pos as int] is Comma));
                        return Err(ParseError::UnexpectedToken);
                    },
                }
                pos += 1;
            } else {
                let args = NestedFieldsArgs { pairs };
                assert(args@ =~= pairs_of(models));
                return Ok(args);
            }
        }
        let args = NestedFieldsArgs { pairs };
        assert(args@ =~= pairs_of(models));
        Ok(args)
    }
}

} // verus!
