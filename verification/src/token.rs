//! Tokens, the trusted boundary to the external tokenizer, and the
//! token-stream view of a text that the decoder's contracts are stated over.

use vstd::prelude::*;

use crate::text::{
    item_ok, quote_item, skip_ws, splits_close, splits_item, splits_open, ws_only,
};

verus! {

/// One atomic token of the format: an item (a bare or enclosed scalar,
/// already unescaped), a statement (the format's `#`-prefixed extension,
/// which this codec does not interpret), or a group delimiter.
#[derive(Debug, PartialEq)]
pub enum Token {
    Item(String),
    Statement(String),
    GroupStart,
    GroupEnd,
}

/// The mathematical form of a [`Token`].
pub enum TokenV {
    Item(Seq<char>),
    Statement(Seq<char>),
    GroupStart,
    GroupEnd,
}

impl View for Token {
    type V = TokenV;

    open spec fn view(&self) -> TokenV {
        match self {
            Token::Item(s) => TokenV::Item(s@),
            Token::Statement(s) => TokenV::Statement(s@),
            Token::GroupStart => TokenV::GroupStart,
            Token::GroupEnd => TokenV::GroupEnd,
        }
    }
}

/// The text a token stands for in an encoded document: items are written
/// quoted and escaped, group delimiters as single braces.
pub open spec fn tok_text(t: TokenV) -> Seq<char> {
    match t {
        TokenV::Item(s) => quote_item(s),
        TokenV::Statement(s) => seq!['#'] + s,
        TokenV::GroupStart => seq!['{'],
        TokenV::GroupEnd => seq!['}'],
    }
}

/// Tokens whose written form the tokenizer reads back as itself.
pub open spec fn tok_ok(t: TokenV) -> bool {
    match t {
        TokenV::Item(s) => item_ok(s),
        TokenV::Statement(_) => false,
        TokenV::GroupStart => true,
        TokenV::GroupEnd => true,
    }
}

/// The text `txt` consists of the written forms of the tokens `ts`, each
/// preceded by optional whitespace and followed by the whitespace the
/// tokenizer consumes after it, leaving exactly `tail`.
pub open spec fn is_stream(txt: Seq<char>, ts: Seq<TokenV>, tail: Seq<char>) -> bool
    decreases ts.len(),
{
    if ts.len() == 0 {
        txt == tail
    } else {
        tok_ok(ts[0]) && exists|pre: Seq<char>, rest: Seq<char>|
            ws_only(pre) && txt == pre + tok_text(ts[0]) + rest && is_stream(
                skip_ws(rest),
                ts.skip(1),
                tail,
            )
    }
}

/// What one tokenizer step hands back: a token and the remaining text, a
/// signal that input ended inside a token, or a syntax error.
pub enum NextOutcome {
    Token { tok: Token, rest: String },
    Needs,
    Broken { msg: String },
}

/// The outcome holds the given item token and remaining text.
pub open spec fn outcome_item(r: &NextOutcome, s: Seq<char>, rest: Seq<char>) -> bool {
    r matches NextOutcome::Token { tok: Token::Item(t), rest: rem } && t@ == s && rem@ == rest
}

/// The outcome holds the given group delimiter and remaining text.
pub open spec fn outcome_open(r: &NextOutcome, rest: Seq<char>) -> bool {
    r matches NextOutcome::Token { tok: Token::GroupStart, rest: rem } && rem@ == rest
}

pub open spec fn outcome_close(r: &NextOutcome, rest: Seq<char>) -> bool {
    r matches NextOutcome::Token { tok: Token::GroupEnd, rest: rem } && rem@ == rest
}

/// One pull from the external tokenizer.
///
/// Relies on `steamy_vdf::parser::next`: it skips runs of space, tab,
/// newline and carriage return before and after one token; reads `{` and `}`
/// as group delimiters; reads a double-quoted item by unescaping `\\`, `\n`,
/// `\t` and `\"` in its content — exactly the inverse of this crate's
/// escaping, for item texts satisfying [`item_ok`], whose conditions fence
/// off the inputs its escape scanner cuts short; consumes at least one
/// character whenever it yields a token, and splits the input only at
/// character boundaries; reports incomplete input when the text holds no
/// token at all — whitespace alone is consumed and then the end of input is
/// reached inside the next token; and passes syntax errors through unread.
#[verifier::external_body]
pub(crate) fn tokenizer_next(input: &str) -> (r: NextOutcome)
    ensures
        forall|pre: Seq<char>, s: Seq<char>, tail: Seq<char>|
            #[trigger] splits_item(input@, pre, s, tail) ==> outcome_item(&r, s, skip_ws(tail)),
        forall|pre: Seq<char>, tail: Seq<char>|
            #[trigger] splits_open(input@, pre, tail) ==> outcome_open(&r, skip_ws(tail)),
        forall|pre: Seq<char>, tail: Seq<char>|
            #[trigger] splits_close(input@, pre, tail) ==> outcome_close(&r, skip_ws(tail)),
        r matches NextOutcome::Token { rest, .. } ==> rest@.len() < input@.len(),
        ws_only(input@) ==> r is Needs,
{
    let parsed = steamy_vdf::parser::next(input.as_bytes());
    if parsed.is_done() {
        let (remainder, token) = parsed.unwrap();
        let tok = match token {
            steamy_vdf::parser::Token::Item(d) => Token::Item(d.into_owned()),
            steamy_vdf::parser::Token::Statement(d) => Token::Statement(d.into_owned()),
            steamy_vdf::parser::Token::GroupStart => Token::GroupStart,
            steamy_vdf::parser::Token::GroupEnd => Token::GroupEnd,
        };
        NextOutcome::Token { tok, rest: String::from_utf8_lossy(remainder).into_owned() }
    } else if parsed.is_incomplete() {
        NextOutcome::Needs
    } else {
        NextOutcome::Broken { msg: format!("{:?}", parsed.unwrap_err()) }
    }
}

} // verus!
