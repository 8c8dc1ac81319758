//! The boundary to the external token source: the lexer that turns raw
//! JSON bytes into a forward-only stream of lexical events.  Its grammar
//! correctness is out of scope here; the tracker is specified for every
//! token sequence the source may deliver.
use vstd::prelude::*;

use aws_smithy_json::deserialize::error::DeserializeError;
use aws_smithy_json::deserialize::{JsonTokenIterator, Token as LexToken};

use crate::model::TokV;
use crate::{JsonNumber, Token};

verus! {

#[verifier::external_type_specification]
#[verifier::external_body]
pub struct ExJsonTokenIterator<'a>(JsonTokenIterator<'a>);

#[verifier::external_type_specification]
#[verifier::external_body]
pub struct ExLexToken<'a>(LexToken<'a>);

#[verifier::external_type_specification]
#[verifier::external_body]
pub struct ExDeserializeError(DeserializeError);

/// The unread part of the token source's input.  Each delivered item
/// consumes at least one input byte, so this shrinks as the stream is
/// drained; it is what makes a traversal terminate.
pub uninterp spec fn remaining(it: JsonTokenIterator) -> nat;

/// The lexical events the token source will still deliver, as model
/// tokens, up to its end or its first error.  The lexer is a pure
/// function of the iterator's value, so this sequence is determined; it
/// is what the traversal's contract is stated over.
pub uninterp spec fn toks_of(it: JsonTokenIterator) -> Seq<TokV>;

/// Whether the token source, after delivering `toks_of`, reports a
/// malformed input rather than a clean end.
pub uninterp spec fn ends_in_err(it: JsonTokenIterator) -> bool;

/// The model token one delivered lexical event stands for: its kind and
/// its payload (keys and strings in their escaped form, a floating
/// number as its rendered text).
pub uninterp spec fn lex_tok_view(t: LexToken) -> TokV;

/// Relies on `JsonTokenIterator::next` (its `Iterator` impl): the next
/// lexical token, an error for malformed input, or `None` at the end of
/// the input.  A delivered token is the head of the deliveries still
/// owed, and the rest stay owed; an error comes exactly when no further
/// token is owed and the input is malformed; `None` exactly at a clean
/// end.  Every `Some` item consumes at least one input byte (an error
/// consumes the rest); `None` consumes at most trailing whitespace.
#[verifier::external_body]
pub(crate) fn next_raw<'a>(it: &mut JsonTokenIterator<'a>) -> (r: Option<
    Result<LexToken<'a>, DeserializeError>,
>)
    ensures
        r is Some ==> remaining(*final(it)) < remaining(*old(it)),
        r is None ==> remaining(*final(it)) <= remaining(*old(it)),
        r matches Some(inner) && inner matches Ok(t) ==> toks_of(*old(it)).len() > 0
            && lex_tok_view(t) == toks_of(*old(it))[0] && toks_of(*final(it)) == toks_of(
            *old(it),
        ).drop_first() && ends_in_err(*final(it)) == ends_in_err(*old(it)),
        r matches Some(inner) && inner is Err ==> toks_of(*old(it)).len() == 0 && ends_in_err(
            *old(it),
        ),
        r is None ==> toks_of(*old(it)).len() == 0 && !ends_in_err(*old(it)),
{
    it.next()
}

#[verifier::external_type_specification]
#[verifier::external_body]
pub struct ExNumber(aws_smithy_types::Number);

/// Relies on the variants of `aws_smithy_types::Number`: an exact
/// integer keeps its value, and a floating value becomes the shortest
/// round-trip decimal text that `ryu::Buffer::format` renders for it.
#[verifier::external_body]
pub(crate) fn convert_number(n: aws_smithy_types::Number) -> JsonNumber {
    match n {
        aws_smithy_types::Number::PosInt(u) => JsonNumber::PosInt(u),
        aws_smithy_types::Number::NegInt(i) => JsonNumber::NegInt(i),
        aws_smithy_types::Number::Float(f) => JsonNumber::Float(
            ryu::Buffer::new().format(f).to_string(),
        ),
    }
}

/// Relies on the variants of `aws_smithy_json::deserialize::Token`: each
/// lexical event is carried over one to one, keys and string values in
/// their original escaped form (via `EscapedStr::as_escaped_str`), so
/// the result is exactly the model token the event stands for.
#[verifier::external_body]
pub(crate) fn convert_token<'a>(t: LexToken<'a>) -> (r: Token<'a>)
    ensures
        r@ == lex_tok_view(t),
{
    match t {
        LexToken::StartObject { .. } => Token::StartObject,
        LexToken::EndObject { .. } => Token::EndObject,
        LexToken::StartArray { .. } => Token::StartArray,
        LexToken::EndArray { .. } => Token::EndArray,
        LexToken::ObjectKey { key, .. } => Token::Key(key.as_escaped_str()),
        LexToken::ValueString { value, .. } => Token::Str(value.as_escaped_str()),
        LexToken::ValueBool { value, .. } => Token::Bool(value),
        LexToken::ValueNull { .. } => Token::Null,
        LexToken::ValueNumber { value, .. } => Token::Num(convert_number(value)),
    }
}

} // verus!
