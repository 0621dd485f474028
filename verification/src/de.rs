//! The decoder: pulls tokens on demand from the external tokenizer,
//! buffering at most one token of lookahead, and builds a typed value of a
//! caller-specified shape.

use vstd::prelude::*;
use vstd::string::{StrSliceExecFns, StringExecFns};

use crate::error::{Error, ErrorV};
use crate::text::{item_ok, quote_item, skip_ws, splits_item, tabs, ws_char, ws_only};
use crate::token::{
    is_stream, outcome_close, outcome_item, outcome_open, tok_ok, tok_text, NextOutcome, Token,
    TokenV,
};
use crate::ser::{entry_text, entries_text, scalar_item, raw_quote, trims, val_text};
use crate::value::{
    encodable, esize, fits, flag_free, lookup_field, plain_name, sfields, sview, top_ok, ventries,
    vsize, vview, Shape, ShapeV, Value, ValueV,
};

verus! {

broadcast use vstd::std_specs::vec::group_vec_axioms, vstd::seq::group_seq_axioms;

/// A structure that deserializes documents into typed values.
///
/// Holds the remaining unparsed text, the queue of produced but unconsumed
/// tokens — at most one ahead, filled only when a token is needed — and the
/// top-level-name flag, consulted the first time a named aggregate is
/// decoded and permanently false afterwards.
pub struct Deserializer {
    /// The remaining unconsumed text.
    pub input: String,
    /// Tokens already produced but not yet consumed.
    pub lookahead: Vec<Token>,
    /// Whether the document's top-level name is still to be consumed.
    pub top_level: bool,
}

impl Deserializer {
    /// The pending tokens, oldest first.
    pub open spec fn sq(self) -> Seq<TokenV> {
        self.lookahead@.map_values(|t: Token| t@)
    }

    /// The pending tokens followed by the remaining text deliver the token
    /// sequence `ts` and leave exactly the text `tail`.
    pub open spec fn has_stream(self, ts: Seq<TokenV>, tail: Seq<char>) -> bool {
        &&& self.sq().len() <= ts.len()
        &&& self.sq() == ts.take(self.sq().len() as int)
        &&& is_stream(self.input@, ts.skip(self.sq().len() as int), tail)
    }

    /// The decoder's fuel: strictly falls whenever a token is consumed.
    pub open spec fn budget(self) -> nat {
        2 * self.input@.len() + self.lookahead@.len()
    }

    /// Creates a deserializer over a complete document text.
    pub fn from_str(input: &str) -> (r: Deserializer)
        ensures
            r.input@ == input@,
            r.lookahead@.len() == 0,
            r.top_level == true,
    {
        Deserializer { input: input.to_owned(), lookahead: Vec::new(), top_level: true }
    }

    /// Pulls one more token from the tokenizer into the queue.
    fn parse_more(&mut self) -> (r: Result<(), Error>)
        requires
            old(self).lookahead@.len() == 0,
        ensures
            final(self).top_level == old(self).top_level,
            final(self).budget() <= old(self).budget(),
            r is Ok ==> final(self).budget() < old(self).budget(),
            forall|ts: Seq<TokenV>, tail: Seq<char>|
                is_stream(old(self).input@, ts, tail) && ts.len() > 0
                    ==> #[trigger] stepped(*old(self), *final(self), ts, tail) && r is Ok,
            forall|pre: Seq<char>, s: Seq<char>, rest: Seq<char>|
                #[trigger] splits_item(old(self).input@, pre, s, rest) ==> r is Ok
                    && final(self).sq() == seq![TokenV::Item(s)] && final(self).input@ == skip_ws(rest),
            forall|pre: Seq<char>, rest: Seq<char>|
                #[trigger] crate::text::splits_open(old(self).input@, pre, rest) ==> r is Ok
                    && final(self).sq() == seq![TokenV::GroupStart] && final(self).input@
                    == skip_ws(rest),
            forall|pre: Seq<char>, rest: Seq<char>|
                #[trigger] crate::text::splits_close(old(self).input@, pre, rest) ==> r is Ok
                    && final(self).sq() == seq![TokenV::GroupEnd] && final(self).input@
                    == skip_ws(rest),
            ws_only(old(self).input@) ==> (r matches Err(e) && e.deep_view() is EarlyEOF),
    {
        let ghost old_input = self.input@;
        let outcome = crate::token::tokenizer_next(self.input.as_str());
        let ghost g_out = outcome;
        match outcome {
            NextOutcome::Token { tok, rest } => {
                self.input = rest;
                self.lookahead.push(tok);
                proof {
                    assert forall|ts: Seq<TokenV>, tail: Seq<char>|
                        is_stream(old(self).input@, ts, tail) && ts.len() > 0 implies #[trigger] stepped(
                        *old(self),
                        *self,
                        ts,
                        tail,
                    ) by {
                        lemma_outcome(old_input, g_out, ts, tail);
                        assert(self.sq() =~= seq![ts[0]]);
                        assert(seq![ts[0]] =~= ts.take(1));
                    }
                    assert forall|pre: Seq<char>, s: Seq<char>, rest2: Seq<char>|
                        #[trigger] splits_item(old(self).input@, pre, s, rest2) implies self.sq()
                        =~= seq![TokenV::Item(s)] && self.input@ == skip_ws(rest2) by {
                        assert(outcome_item(&g_out, s, skip_ws(rest2)));
                        assert(self.sq() =~= seq![TokenV::Item(s)]);
                    }
                    assert forall|pre: Seq<char>, rest2: Seq<char>|
                        #[trigger] crate::text::splits_open(old(self).input@, pre, rest2) implies
                        self.sq() =~= seq![TokenV::GroupStart] && self.input@ == skip_ws(
                        rest2) by {
                        assert(outcome_open(&g_out, skip_ws(rest2)));
                        assert(self.sq() =~= seq![TokenV::GroupStart]);
                    }
                    assert forall|pre: Seq<char>, rest2: Seq<char>|
                        #[trigger] crate::text::splits_close(old(self).input@, pre, rest2) implies
                        self.sq() =~= seq![TokenV::GroupEnd] && self.input@ == skip_ws(
                        rest2) by {
                        assert(outcome_close(&g_out, skip_ws(rest2)));
                        assert(self.sq() =~= seq![TokenV::GroupEnd]);
                    }
                }
                Ok(())
            },
            NextOutcome::Needs => {
                proof {
                    lemma_no_token(old_input, g_out);
                }
                Err(Error::EarlyEOF)
            },
            NextOutcome::Broken { msg } => {
                proof {
                    lemma_no_token(old_input, g_out);
                }
                Err(Error::Tokenize(msg))
            },
        }
    }

    /// Fills the queue if it is empty.
    fn parse_more_if_needed(&mut self) -> (r: Result<(), Error>)
        ensures
            final(self).top_level == old(self).top_level,
            final(self).budget() <= old(self).budget(),
            forall|ts: Seq<TokenV>, tail: Seq<char>|
                #[trigger] old(self).has_stream(ts, tail) && ts.len() > 0 ==> r is Ok
                    && final(self).has_stream(ts, tail) && final(self).sq().len() > 0,
            forall|pre: Seq<char>, s: Seq<char>, rest: Seq<char>|
                old(self).sq().len() == 0 && #[trigger] splits_item(old(self).input@, pre, s, rest)
                    ==> (r is Ok && final(self).sq() == seq![TokenV::Item(s)] && final(self).input@ == skip_ws(
                    rest,
                )),
            forall|pre: Seq<char>, rest: Seq<char>|
                old(self).sq().len() == 0 && #[trigger] crate::text::splits_open(
                    old(self).input@,
                    pre,
                    rest,
                ) ==> (r is Ok && final(self).sq() == seq![TokenV::GroupStart]
                    && final(self).input@ == skip_ws(rest)),
            forall|pre: Seq<char>, rest: Seq<char>|
                old(self).sq().len() == 0 && #[trigger] crate::text::splits_close(
                    old(self).input@,
                    pre,
                    rest,
                ) ==> (r is Ok && final(self).sq() == seq![TokenV::GroupEnd]
                    && final(self).input@ == skip_ws(rest)),
            old(self).sq().len() == 0 && ws_only(old(self).input@) ==> (r matches Err(e)
                && e.deep_view() is EarlyEOF),
    {
        if self.lookahead.len() == 0 {
            let r = self.parse_more();
            proof {
                assert forall|ts: Seq<TokenV>, tail: Seq<char>|
                    #[trigger] old(self).has_stream(ts, tail) && ts.len() > 0 implies r is Ok
                    && self.has_stream(ts, tail) && self.sq().len() > 0 by {
                    assert(old(self).sq() =~= Seq::<TokenV>::empty());
                    assert(ts.skip(0) =~= ts);
                    assert(is_stream(old(self).input@, ts, tail));
                    assert(stepped(*old(self), *self, ts, tail));
                    assert(self.sq() =~= ts.take(1));
                    assert(ts.skip(1) =~= ts.skip(self.sq().len() as int));
                }
            }
            r
        } else {
            Ok(())
        }
    }

    /// Peeks the next token without consuming it.
    pub fn peek_token(&mut self) -> (r: Result<&Token, Error>)
        ensures
            final(self).top_level == old(self).top_level,
            final(self).budget() <= old(self).budget(),
            forall|ts: Seq<TokenV>, tail: Seq<char>|
                #[trigger] old(self).has_stream(ts, tail) && ts.len() > 0 ==> (r matches Ok(t)
                    && t@ == ts[0] && final(self).has_stream(ts, tail)),
    {
        let r0 = self.parse_more_if_needed();
        match r0 {
            Err(e) => Err(e),
            Ok(()) => {
                if self.lookahead.len() > 0 {
                    proof {
                        assert forall|ts: Seq<TokenV>, tail: Seq<char>|
                            #[trigger] old(self).has_stream(ts, tail) && ts.len() > 0 implies
                            self.lookahead@[0]@ == ts[0] by {
                            assert(self.sq()[0] == ts.take(self.sq().len() as int)[0]);
                        }
                    }
                    Ok(&self.lookahead[0])
                } else {
                    Err(Error::EarlyEOF)
                }
            },
        }
    }

    /// Consumes and returns the next token.
    pub fn next_token(&mut self) -> (r: Result<Token, Error>)
        ensures
            final(self).top_level == old(self).top_level,
            final(self).budget() <= old(self).budget(),
            r is Ok ==> final(self).budget() < old(self).budget(),
            forall|ts: Seq<TokenV>, tail: Seq<char>|
                #[trigger] old(self).has_stream(ts, tail) && ts.len() > 0 ==> (r matches Ok(t)
                    && t@ == ts[0] && final(self).has_stream(ts.skip(1), tail)),
            forall|pre: Seq<char>, s: Seq<char>, rest: Seq<char>|
                old(self).sq().len() == 0 && #[trigger] splits_item(old(self).input@, pre, s, rest)
                    ==> (r matches Ok(t) && t@ == TokenV::Item(s) && final(self).sq().len() == 0
                    && final(self).input@ == skip_ws(rest)),
            forall|pre: Seq<char>, rest: Seq<char>|
                old(self).sq().len() == 0 && #[trigger] crate::text::splits_open(
                    old(self).input@,
                    pre,
                    rest,
                ) ==> (r matches Ok(t) && t@ == TokenV::GroupStart && final(self).sq().len() == 0
                    && final(self).input@ == skip_ws(rest)),
            forall|pre: Seq<char>, rest: Seq<char>|
                old(self).sq().len() == 0 && #[trigger] crate::text::splits_close(
                    old(self).input@,
                    pre,
                    rest,
                ) ==> (r matches Ok(t) && t@ == TokenV::GroupEnd && final(self).sq().len() == 0
                    && final(self).input@ == skip_ws(rest)),
            old(self).sq().len() == 0 && ws_only(old(self).input@) ==> (r matches Err(e)
                && e.deep_view() is EarlyEOF),
    {
        let r0 = self.parse_more_if_needed();
        match r0 {
            Err(e) => {
                proof {
                    assert forall|pre: Seq<char>, s: Seq<char>, rest: Seq<char>|
                        old(self).sq().len() == 0 && #[trigger] splits_item(
                            old(self).input@,
                            pre,
                            s,
                            rest,
                        ) implies false by {
                        assert(old(self).lookahead@.len() == 0);
                    }
                }
                Err(e)
            },
            Ok(()) => {
                if self.lookahead.len() > 0 {
                    let ghost mid = *self;
                    let t = self.lookahead.remove(0);
                    proof {
                        assert(self.sq() =~= mid.sq().skip(1));
                        assert forall|ts: Seq<TokenV>, tail: Seq<char>|
                            #[trigger] old(self).has_stream(ts, tail) && ts.len() > 0 implies (t@
                            == ts[0] && self.has_stream(ts.skip(1), tail)) by {
                            assert(mid.has_stream(ts, tail));
                            assert(mid.sq().len() > 0);
                            assert(mid.sq()[0] == ts.take(mid.sq().len() as int)[0]);
                            assert(t@ == ts[0]);
                            assert(self.sq() =~= ts.skip(1).take(self.sq().len() as int));
                            assert(ts.skip(mid.sq().len() as int) =~= ts.skip(1).skip(
                                self.sq().len() as int,
                            ));
                        }
                        assert forall|pre: Seq<char>, s: Seq<char>, rest: Seq<char>|
                            old(self).sq().len() == 0 && #[trigger] splits_item(
                                old(self).input@,
                                pre,
                                s,
                                rest,
                            ) implies (t@ == TokenV::Item(s) && self.sq().len() == 0 && self.input@
                            == skip_ws(rest)) by {
                            assert(old(self).lookahead@.len() == 0);
                            assert(mid.sq() =~= seq![TokenV::Item(s)]);
                            assert(t@ == mid.sq()[0]);
                        }
                        assert forall|pre: Seq<char>, rest: Seq<char>|
                            old(self).sq().len() == 0 && #[trigger] crate::text::splits_open(
                                old(self).input@,
                                pre,
                                rest,
                            ) implies (t@ == TokenV::GroupStart && self.sq().len() == 0
                            && self.input@ == skip_ws(rest)) by {
                            assert(old(self).lookahead@.len() == 0);
                            assert(mid.sq() =~= seq![TokenV::GroupStart]);
                            assert(t@ == mid.sq()[0]);
                        }
                        assert forall|pre: Seq<char>, rest: Seq<char>|
                            old(self).sq().len() == 0 && #[trigger] crate::text::splits_close(
                                old(self).input@,
                                pre,
                                rest,
                            ) implies (t@ == TokenV::GroupEnd && self.sq().len() == 0
                            && self.input@ == skip_ws(rest)) by {
                            assert(old(self).lookahead@.len() == 0);
                            assert(mid.sq() =~= seq![TokenV::GroupEnd]);
                            assert(t@ == mid.sq()[0]);
                        }
                    }
                    Ok(t)
                } else {
                    Err(Error::EarlyEOF)
                }
            },
        }
    }

    /// Consumes the next token, which must be an item; anything else is a
    /// structural mismatch.
    pub fn next_token_item(&mut self) -> (r: Result<String, Error>)
        ensures
            final(self).top_level == old(self).top_level,
            final(self).budget() <= old(self).budget(),
            r is Ok ==> final(self).budget() < old(self).budget(),
            forall|ts: Seq<TokenV>, tail: Seq<char>|
                #[trigger] old(self).has_stream(ts, tail) && ts.len() > 0 ==> (ts[0] matches
                TokenV::Item(sv) ==> (r matches Ok(t) && t@ == sv && final(self).has_stream(
                    ts.skip(1),
                    tail,
                ))),
            forall|pre: Seq<char>, s: Seq<char>, rest: Seq<char>|
                old(self).sq().len() == 0 && #[trigger] splits_item(old(self).input@, pre, s, rest)
                    ==> (r matches Ok(t) && t@ == s && final(self).sq().len() == 0 && final(self).input@
                    == skip_ws(rest)),
            forall|ts: Seq<TokenV>, tail: Seq<char>|
                #[trigger] old(self).has_stream(ts, tail) && ts.len() > 0 && (ts[0] is GroupStart
                    || ts[0] is GroupEnd) ==> (r matches Err(e) && e.deep_view()
                    == ErrorV::Expected("Item"@, describe_token_spec(ts[0]))),
            old(self).sq().len() == 0 && ws_only(old(self).input@) ==> (r matches Err(e)
                && e.deep_view() is EarlyEOF),
    {
        let t = match self.next_token() {
            Err(e) => {
                return Err(e);
            },
            Ok(t) => t,
        };
        match t {
            Token::Item(data) => Ok(data),
            got => Err(Error::Expected(String::from_str("Item"), describe_token(&got))),
        }
    }

    /// Rejected: the format cannot direct an unconstrained decode.
    pub fn deserialize_any(&mut self) -> (r: Result<Value, Error>)
        ensures
            *final(self) == *old(self),
            r matches Err(e) && e.deep_view() == ErrorV::UnsupportedType("any"@),
    {
        Err(Error::UnsupportedType("any"))
    }

    /// Rejected: byte arrays have no textual form in the format.
    pub fn deserialize_bytes(&mut self) -> (r: Result<Value, Error>)
        ensures
            *final(self) == *old(self),
            r matches Err(e) && e.deep_view() == ErrorV::UnsupportedType("byte array"@),
    {
        Err(Error::UnsupportedType("byte array"))
    }

    /// Rejected: byte buffers have no textual form in the format.
    pub fn deserialize_byte_buf(&mut self) -> (r: Result<Value, Error>)
        ensures
            *final(self) == *old(self),
            r matches Err(e) && e.deep_view() == ErrorV::UnsupportedType("byte array"@),
    {
        Err(Error::UnsupportedType("byte array"))
    }

    /// Rejected: the unit value has no textual form in the format.
    pub fn deserialize_unit(&mut self) -> (r: Result<Value, Error>)
        ensures
            *final(self) == *old(self),
            r matches Err(e) && e.deep_view() == ErrorV::UnsupportedType("unit"@),
    {
        Err(Error::UnsupportedType("unit"))
    }

    /// Rejected: zero-field record types have no textual form in the format.
    pub fn deserialize_unit_struct(&mut self) -> (r: Result<Value, Error>)
        ensures
            *final(self) == *old(self),
            r matches Err(e) && e.deep_view() == ErrorV::UnsupportedType("unit_struct"@),
    {
        Err(Error::UnsupportedType("unit_struct"))
    }

    /// Rejected: sequences have no textual form in the format.
    pub fn deserialize_seq(&mut self) -> (r: Result<Value, Error>)
        ensures
            *final(self) == *old(self),
            r matches Err(e) && e.deep_view() == ErrorV::UnsupportedType("seq"@),
    {
        Err(Error::UnsupportedType("seq"))
    }

    /// Rejected: tuples have no textual form in the format.
    pub fn deserialize_tuple(&mut self) -> (r: Result<Value, Error>)
        ensures
            *final(self) == *old(self),
            r matches Err(e) && e.deep_view() == ErrorV::UnsupportedType("tuple"@),
    {
        Err(Error::UnsupportedType("tuple"))
    }

    /// Rejected: tuple-like record types have no textual form in the format.
    pub fn deserialize_tuple_struct(&mut self) -> (r: Result<Value, Error>)
        ensures
            *final(self) == *old(self),
            r matches Err(e) && e.deep_view() == ErrorV::UnsupportedType("tuple_struct"@),
    {
        Err(Error::UnsupportedType("tuple_struct"))
    }
}

/// A short account of an unexpected token, carried in `Expected` errors.
pub fn describe_token(t: &Token) -> (r: String)
    ensures
        r@ == describe_token_spec(t@),
{
    match t {
        Token::Item(s) => {
            let mut out = String::from_str("Item(\"");
            out.append(s.as_str());
            out.append("\")");
            out
        },
        Token::Statement(s) => {
            let mut out = String::from_str("Statement(\"");
            out.append(s.as_str());
            out.append("\")");
            out
        },
        Token::GroupStart => String::from_str("GroupStart"),
        Token::GroupEnd => String::from_str("GroupEnd"),
    }
}

pub open spec fn describe_token_spec(t: TokenV) -> Seq<char> {
    match t {
        TokenV::Item(s) => "Item(\""@ + s + "\")"@,
        TokenV::Statement(s) => "Statement(\""@ + s + "\")"@,
        TokenV::GroupStart => "GroupStart"@,
        TokenV::GroupEnd => "GroupEnd"@,
    }
}

/// One state step of the token buffer: the first pending token of `ts` was
/// produced and queued, and the text advanced past it.
pub open spec fn stepped(pre: Deserializer, post: Deserializer, ts: Seq<TokenV>, tail: Seq<char>) -> bool {
    &&& post.sq() == pre.sq() + seq![ts[0]]
    &&& post.sq() == ts.take(1)
    &&& is_stream(post.input@, ts.skip(1), tail)
    &&& post.top_level == pre.top_level
}

/// Under a stream hypothesis, a tokenizer step yields exactly the stream's
/// first token and stands at its remainder.
proof fn lemma_outcome(inp: Seq<char>, out: NextOutcome, ts: Seq<TokenV>, tail: Seq<char>)
    requires
        is_stream(inp, ts, tail),
        ts.len() > 0,
        forall|pre: Seq<char>, s: Seq<char>, rest: Seq<char>|
            #[trigger] splits_item(inp, pre, s, rest) ==> outcome_item(&out, s, skip_ws(rest)),
        forall|pre: Seq<char>, rest: Seq<char>|
            #[trigger] crate::text::splits_open(inp, pre, rest) ==> outcome_open(
                &out,
                skip_ws(rest),
            ),
        forall|pre: Seq<char>, rest: Seq<char>|
            #[trigger] crate::text::splits_close(inp, pre, rest) ==> outcome_close(
                &out,
                skip_ws(rest),
            ),
    ensures
        out matches NextOutcome::Token { tok, rest } && tok@ == ts[0] && is_stream(
            rest@,
            ts.skip(1),
            tail,
        ),
{
    let (pre, rest) = choose|pre: Seq<char>, rest: Seq<char>|
        ws_only(pre) && inp == pre + tok_text(ts[0]) + rest && is_stream(
            skip_ws(rest),
            ts.skip(1),
            tail,
        );
    match ts[0] {
        TokenV::Item(s) => {
            assert(splits_item(inp, pre, s, rest));
            assert(outcome_item(&out, s, skip_ws(rest)));
        },
        TokenV::Statement(_) => {
            assert(false);
        },
        TokenV::GroupStart => {
            assert(crate::text::splits_open(inp, pre, rest));
            assert(outcome_open(&out, skip_ws(rest)));
        },
        TokenV::GroupEnd => {
            assert(crate::text::splits_close(inp, pre, rest));
            assert(outcome_close(&out, skip_ws(rest)));
        },
    }
}

/// The failing outcomes cannot arise from a text that carries a pending
/// token stream.
proof fn lemma_no_token(inp: Seq<char>, out: NextOutcome)
    requires
        !(out is Token),
        forall|pre: Seq<char>, s: Seq<char>, rest: Seq<char>|
            #[trigger] splits_item(inp, pre, s, rest) ==> outcome_item(&out, s, skip_ws(rest)),
        forall|pre: Seq<char>, rest: Seq<char>|
            #[trigger] crate::text::splits_open(inp, pre, rest) ==> outcome_open(
                &out,
                skip_ws(rest),
            ),
        forall|pre: Seq<char>, rest: Seq<char>|
            #[trigger] crate::text::splits_close(inp, pre, rest) ==> outcome_close(
                &out,
                skip_ws(rest),
            ),
    ensures
        forall|ts: Seq<TokenV>, tail: Seq<char>|
            #[trigger] is_stream(inp, ts, tail) ==> ts.len() == 0,
        forall|pre: Seq<char>, s: Seq<char>, rest: Seq<char>|
            !#[trigger] splits_item(inp, pre, s, rest),
{
    assert forall|ts: Seq<TokenV>, tail: Seq<char>|
        #[trigger] is_stream(inp, ts, tail) implies ts.len() == 0 by {
        if ts.len() > 0 {
            lemma_outcome(inp, out, ts, tail);
        }
    }
    assert forall|pre: Seq<char>, s: Seq<char>, rest: Seq<char>| !#[trigger] splits_item(
        inp,
        pre,
        s,
        rest,
    ) by {
        if splits_item(inp, pre, s, rest) {
            assert(outcome_item(&out, s, skip_ws(rest)));
        }
    }
}

impl Deserializer {
    /// Decodes a boolean item: only the literal texts `1` and `0` are
    /// accepted; any other item, or a group delimiter, is a mismatch.
    pub fn deserialize_bool(&mut self) -> (r: Result<bool, Error>)
        ensures
            final(self).top_level == old(self).top_level,
            final(self).budget() <= old(self).budget(),
            r is Ok ==> final(self).budget() < old(self).budget(),
            forall|ts: Seq<TokenV>, tail: Seq<char>|
                #[trigger] old(self).has_stream(ts, tail) && ts.len() > 0 ==> {
                    &&& ts[0] == TokenV::Item(seq!['1']) ==> (r matches Ok(b) && b == true
                        && final(self).has_stream(ts.skip(1), tail))
                    &&& ts[0] == TokenV::Item(seq!['0']) ==> (r matches Ok(b) && b == false
                        && final(self).has_stream(ts.skip(1), tail))
                    &&& (ts[0] matches TokenV::Item(sv) && sv != seq!['1'] && sv != seq!['0'])
                        ==> (r matches Err(e) && e.deep_view() == ErrorV::Expected(
                        "bool (\"0\" or \"1\")"@,
                        describe_token_spec(ts[0]),
                    ))
                    &&& !(ts[0] is Item) ==> (r matches Err(e) && e.deep_view()
                        == ErrorV::Expected("bool (\"0\" or \"1\")"@, describe_token_spec(ts[0])))
                },
            old(self).sq().len() == 0 && ws_only(old(self).input@) ==> (r matches Err(e)
                && e.deep_view() is EarlyEOF),
    {
        let t = match self.next_token() {
            Err(e) => {
                return Err(e);
            },
            Ok(t) => t,
        };
        match t {
            Token::Item(data) => {
                let one = data.as_str().unicode_len() == 1;
                if one && data.as_str().get_char(0) == '0' {
                    proof {
                        assert(data@ =~= seq!['0']);
                    }
                    Ok(false)
                } else if one && data.as_str().get_char(0) == '1' {
                    proof {
                        assert(data@ =~= seq!['1']);
                    }
                    Ok(true)
                } else {
                    Err(Error::Expected(
                        String::from_str("bool (\"0\" or \"1\")"),
                        describe_token(&Token::Item(data)),
                    ))
                }
            },
            got => Err(Error::Expected(
                String::from_str("bool (\"0\" or \"1\")"),
                describe_token(&got),
            )),
        }
    }

    /// Decodes a signed integer item of the given range by the standard
    /// textual parse, widened through the largest signed width.
    pub fn deserialize_i64(&mut self) -> (r: Result<i64, Error>)
        ensures
            final(self).top_level == old(self).top_level,
            final(self).budget() <= old(self).budget(),
            r is Ok ==> final(self).budget() < old(self).budget(),
            forall|ts: Seq<TokenV>, tail: Seq<char>|
                #[trigger] old(self).has_stream(ts, tail) && ts.len() > 0 ==> (ts[0] matches
                TokenV::Item(sv) ==> {
                    &&& (crate::num::sint_grammar(sv) && i64::MIN <= crate::num::sint_val(sv)
                        <= i64::MAX) ==> (r matches Ok(n) && n == crate::num::sint_val(sv)
                        && final(self).has_stream(ts.skip(1), tail))
                    &&& !(crate::num::sint_grammar(sv) && i64::MIN <= crate::num::sint_val(sv)
                        <= i64::MAX) ==> (r matches Err(e) && e.deep_view() is StringParse)
                }),
            forall|ts: Seq<TokenV>, tail: Seq<char>|
                #[trigger] old(self).has_stream(ts, tail) && ts.len() > 0 && (ts[0] is GroupStart
                    || ts[0] is GroupEnd) ==> (r matches Err(e) && e.deep_view()
                    == ErrorV::Expected("Item"@, describe_token_spec(ts[0]))),
            old(self).sq().len() == 0 && ws_only(old(self).input@) ==> (r matches Err(e)
                && e.deep_view() is EarlyEOF),
    {
        let data = match self.next_token_item() {
            Err(e) => {
                return Err(e);
            },
            Ok(d) => d,
        };
        crate::num::parse_i64_text(data.as_str())
    }

    /// Decodes an unsigned integer item by the standard textual parse,
    /// widened through the largest unsigned width.
    pub fn deserialize_u64(&mut self) -> (r: Result<u64, Error>)
        ensures
            final(self).top_level == old(self).top_level,
            final(self).budget() <= old(self).budget(),
            r is Ok ==> final(self).budget() < old(self).budget(),
            forall|ts: Seq<TokenV>, tail: Seq<char>|
                #[trigger] old(self).has_stream(ts, tail) && ts.len() > 0 ==> (ts[0] matches
                TokenV::Item(sv) ==> {
                    &&& (crate::num::uint_grammar(sv) && crate::num::uint_val(sv) <= u64::MAX)
                        ==> (r matches Ok(n) && n == crate::num::uint_val(sv)
                        && final(self).has_stream(ts.skip(1), tail))
                    &&& !(crate::num::uint_grammar(sv) && crate::num::uint_val(sv) <= u64::MAX)
                        ==> (r matches Err(e) && e.deep_view() is StringParse)
                }),
            forall|ts: Seq<TokenV>, tail: Seq<char>|
                #[trigger] old(self).has_stream(ts, tail) && ts.len() > 0 && (ts[0] is GroupStart
                    || ts[0] is GroupEnd) ==> (r matches Err(e) && e.deep_view()
                    == ErrorV::Expected("Item"@, describe_token_spec(ts[0]))),
            old(self).sq().len() == 0 && ws_only(old(self).input@) ==> (r matches Err(e)
                && e.deep_view() is EarlyEOF),
    {
        let data = match self.next_token_item() {
            Err(e) => {
                return Err(e);
            },
            Ok(d) => d,
        };
        crate::num::parse_u64_text(data.as_str())
    }

    /// Decodes a character item: an item of exactly one character.
    pub fn deserialize_char(&mut self) -> (r: Result<char, Error>)
        ensures
            final(self).top_level == old(self).top_level,
            final(self).budget() <= old(self).budget(),
            r is Ok ==> final(self).budget() < old(self).budget(),
            forall|ts: Seq<TokenV>, tail: Seq<char>|
                #[trigger] old(self).has_stream(ts, tail) && ts.len() > 0 ==> (ts[0] matches
                TokenV::Item(sv) ==> {
                    &&& sv.len() == 1 ==> (r matches Ok(c) && c == sv[0]
                        && final(self).has_stream(ts.skip(1), tail))
                    &&& sv.len() == 0 ==> (r matches Err(e) && e.deep_view()
                        == ErrorV::StringParse("cannot parse char from empty string"@))
                    &&& sv.len() > 1 ==> (r matches Err(e) && e.deep_view()
                        == ErrorV::StringParse("too many characters in string"@))
                }),
            forall|ts: Seq<TokenV>, tail: Seq<char>|
                #[trigger] old(self).has_stream(ts, tail) && ts.len() > 0 && (ts[0] is GroupStart
                    || ts[0] is GroupEnd) ==> (r matches Err(e) && e.deep_view()
                    == ErrorV::Expected("Item"@, describe_token_spec(ts[0]))),
            old(self).sq().len() == 0 && ws_only(old(self).input@) ==> (r matches Err(e)
                && e.deep_view() is EarlyEOF),
    {
        let data = match self.next_token_item() {
            Err(e) => {
                return Err(e);
            },
            Ok(d) => d,
        };
        let n = data.as_str().unicode_len();
        if n == 1 {
            Ok(data.as_str().get_char(0))
        } else if n == 0 {
            Err(Error::StringParse(String::from_str("cannot parse char from empty string")))
        } else {
            Err(Error::StringParse(String::from_str("too many characters in string")))
        }
    }

    /// Decodes a string item: the item's text, verbatim, already unescaped
    /// by the tokenizer.
    pub fn deserialize_string(&mut self) -> (r: Result<String, Error>)
        ensures
            final(self).top_level == old(self).top_level,
            final(self).budget() <= old(self).budget(),
            r is Ok ==> final(self).budget() < old(self).budget(),
            forall|ts: Seq<TokenV>, tail: Seq<char>|
                #[trigger] old(self).has_stream(ts, tail) && ts.len() > 0 ==> (ts[0] matches
                TokenV::Item(sv) ==> (r matches Ok(t) && t@ == sv && final(self).has_stream(
                    ts.skip(1),
                    tail,
                ))),
            forall|ts: Seq<TokenV>, tail: Seq<char>|
                #[trigger] old(self).has_stream(ts, tail) && ts.len() > 0 && (ts[0] is GroupStart
                    || ts[0] is GroupEnd) ==> (r matches Err(e) && e.deep_view()
                    == ErrorV::Expected("Item"@, describe_token_spec(ts[0]))),
            old(self).sq().len() == 0 && ws_only(old(self).input@) ==> (r matches Err(e)
                && e.deep_view() is EarlyEOF),
    {
        self.next_token_item()
    }

    /// Decodes a map or record key; keys are plain string items.
    pub fn deserialize_identifier(&mut self) -> (r: Result<String, Error>)
        ensures
            final(self).top_level == old(self).top_level,
            final(self).budget() <= old(self).budget(),
            r is Ok ==> final(self).budget() < old(self).budget(),
            forall|ts: Seq<TokenV>, tail: Seq<char>|
                #[trigger] old(self).has_stream(ts, tail) && ts.len() > 0 ==> (ts[0] matches
                TokenV::Item(sv) ==> (r matches Ok(t) && t@ == sv && final(self).has_stream(
                    ts.skip(1),
                    tail,
                ))),
            forall|ts: Seq<TokenV>, tail: Seq<char>|
                #[trigger] old(self).has_stream(ts, tail) && ts.len() > 0 && (ts[0] is GroupStart
                    || ts[0] is GroupEnd) ==> (r matches Err(e) && e.deep_view()
                    == ErrorV::Expected("Item"@, describe_token_spec(ts[0]))),
            old(self).sq().len() == 0 && ws_only(old(self).input@) ==> (r matches Err(e)
                && e.deep_view() is EarlyEOF),
    {
        self.next_token_item()
    }

    /// Decodes a unit-like enum variant: one item whose text must be one of
    /// the declared variant names.
    pub fn deserialize_enum(&mut self, variants: &Vec<String>) -> (r: Result<String, Error>)
        ensures
            final(self).top_level == old(self).top_level,
            final(self).budget() <= old(self).budget(),
            r is Ok ==> final(self).budget() < old(self).budget(),
            forall|ts: Seq<TokenV>, tail: Seq<char>|
                #[trigger] old(self).has_stream(ts, tail) && ts.len() > 0 ==> (ts[0] matches
                TokenV::Item(sv) ==> {
                    &&& (exists|i: int| 0 <= i < variants@.len() && #[trigger] variants@[i]@ == sv)
                        ==> (r matches Ok(t) && t@ == sv && final(self).has_stream(
                        ts.skip(1),
                        tail,
                    ))
                    &&& !(exists|i: int|
                        0 <= i < variants@.len() && #[trigger] variants@[i]@ == sv) ==> (r matches
                    Err(e) && e.deep_view() == ErrorV::Message(
                        "unknown variant `"@ + sv + "`"@,
                    ))
                }),
            forall|ts: Seq<TokenV>, tail: Seq<char>|
                #[trigger] old(self).has_stream(ts, tail) && ts.len() > 0 && (ts[0] is GroupStart
                    || ts[0] is GroupEnd) ==> (r matches Err(e) && e.deep_view()
                    == ErrorV::Expected("Item"@, describe_token_spec(ts[0]))),
            old(self).sq().len() == 0 && ws_only(old(self).input@) ==> (r matches Err(e)
                && e.deep_view() is EarlyEOF),
    {
        let data = match self.next_token_item() {
            Err(e) => {
                return Err(e);
            },
            Ok(d) => d,
        };
        let mut j: usize = 0;
        while j < variants.len()
            invariant
                j <= variants@.len(),
                forall|k: int| 0 <= k < j ==> #[trigger] variants@[k]@ != data@,
                self.top_level == old(self).top_level,
                self.budget() < old(self).budget(),
                forall|ts: Seq<TokenV>, tail: Seq<char>|
                    #[trigger] old(self).has_stream(ts, tail) && ts.len() > 0 ==> (ts[0] matches
                    TokenV::Item(sv) ==> (data@ == sv && self.has_stream(ts.skip(1), tail))),
                forall|ts: Seq<TokenV>, tail: Seq<char>|
                    !(#[trigger] old(self).has_stream(ts, tail) && ts.len() > 0 && (ts[0]
                        is GroupStart || ts[0] is GroupEnd)),
                !(old(self).sq().len() == 0 && ws_only(old(self).input@)),
            decreases variants@.len() - j,
        {
            if data == variants[j] {
                return Ok(data);
            }
            j = j + 1;
        }
        let mut msg = String::from_str("unknown variant `");
        msg.append(data.as_str());
        msg.append("`");
        Err(Error::Message(msg))
    }
}


/// The token sequence a value's encoding tokenizes to; `named` tells whether
/// a record at this position carries the document's top-level name.
pub open spec fn toks_v(v: ValueV, named: bool) -> Seq<TokenV>
    decreases v,
{
    match v {
        ValueV::Opt(x) => toks_v(*x, named),
        ValueV::Newtype(_, x) => toks_v(*x, named),
        ValueV::Record(n, es) => (if named {
            seq![TokenV::Item(n)]
        } else {
            Seq::empty()
        }) + seq![TokenV::GroupStart] + toks_entries(es) + seq![TokenV::GroupEnd],
        ValueV::Dict(es) => seq![TokenV::GroupStart] + toks_entries(es) + seq![TokenV::GroupEnd],
        _ => seq![TokenV::Item(scalar_item(v))],
    }
}

pub open spec fn toks_entries(es: Seq<(Seq<char>, ValueV)>) -> Seq<TokenV>
    decreases es,
{
    if es.len() == 0 {
        Seq::empty()
    } else {
        seq![TokenV::Item(es[0].0)] + toks_v(es[0].1, false) + toks_entries(
            es.subrange(1, es.len() as int),
        )
    }
}

/// Whether decoding `v` consults and clears the top-level-name flag.
pub open spec fn uses_flag(v: ValueV) -> bool
    decreases v,
{
    match v {
        ValueV::Opt(x) => uses_flag(*x),
        ValueV::Newtype(_, _) => true,
        ValueV::Record(_, _) => true,
        _ => false,
    }
}

/// The declared name a shape demands at the top of a document, if any.
pub open spec fn top_name(s: ShapeV) -> Option<Seq<char>> {
    match s {
        ShapeV::Record(n, _) => Option::Some(n),
        ShapeV::Newtype(n, _) => Option::Some(n),
        _ => Option::None,
    }
}

/// Every entry key is a declared field whose shape the entry's value has.
pub open spec fn entries_fit(ves: Seq<(Seq<char>, ValueV)>, fields: Seq<(Seq<char>, ShapeV)>) -> bool {
    forall|i: int|
        0 <= i < ves.len() ==> ((#[trigger] lookup_field(fields, ves[i].0)) matches Option::Some(
            fs,
        ) && fits(ves[i].1, fs))
}

/// Every entry's value has the one declared value shape.
pub open spec fn entries_fit_dict(ves: Seq<(Seq<char>, ValueV)>, inner: ShapeV) -> bool {
    forall|i: int| 0 <= i < ves.len() ==> fits(#[trigger] ves[i].1, inner)
}

/// Every entry's texts survive the tokenizer.
pub open spec fn entries_enc(ves: Seq<(Seq<char>, ValueV)>) -> bool {
    forall|i: int|
        0 <= i < ves.len() ==> crate::text::item_ok(#[trigger] ves[i].0) && encodable(ves[i].1)
}

/// No entry's value consults the top-level-name flag.
pub open spec fn entries_ff(ves: Seq<(Seq<char>, ValueV)>) -> bool {
    forall|i: int| 0 <= i < ves.len() ==> flag_free(#[trigger] ves[i].1)
}

/// A value that never reaches a named aggregate decodes under either flag
/// state.
pub proof fn lemma_flag_free_top_ok(v: ValueV)
    requires
        flag_free(v),
    ensures
        top_ok(v),
        !uses_flag(v),
    decreases v,
{
    match v {
        ValueV::Opt(x) => {
            lemma_flag_free_top_ok(*x);
        },
        _ => {},
    }
}

/// A value free of named aggregates has the same token form whether or not
/// the top-level name is still pending.
pub proof fn lemma_toks_flag_free(v: ValueV)
    requires
        flag_free(v),
    ensures
        toks_v(v, true) == toks_v(v, false),
    decreases v,
{
    match v {
        ValueV::Opt(x) => {
            lemma_toks_flag_free(*x);
        },
        _ => {},
    }
}

/// A structural size for shapes, the decreasing measure of the decode walk.
pub open spec fn ssize(s: ShapeV) -> nat
    decreases s,
{
    match s {
        ShapeV::Opt(x) => 1 + ssize(*x),
        ShapeV::Newtype(_, x) => 1 + ssize(*x),
        ShapeV::Record(_, fs) => 1 + fsize(fs),
        ShapeV::Dict(x) => 1 + ssize(*x),
        _ => 1,
    }
}

pub open spec fn fsize(fs: Seq<(Seq<char>, ShapeV)>) -> nat
    decreases fs,
{
    if fs.len() == 0 {
        0
    } else {
        1 + ssize(fs[0].1) + fsize(fs.subrange(1, fs.len() as int))
    }
}

/// A looked-up field shape is strictly smaller than the field list.
pub proof fn lemma_fsize_lookup(fs: Seq<(Seq<char>, ShapeV)>, k: Seq<char>)
    requires
        lookup_field(fs, k) is Some,
    ensures
        ssize(lookup_field(fs, k)->Some_0) < fsize(fs),
    decreases fs.len(),
{
    if fs.len() > 0 {
        if fs[0].0 == k {
        } else {
            assert(fs.drop_first() =~= fs.subrange(1, fs.len() as int));
            lemma_fsize_lookup(fs.drop_first(), k);
        }
    }
}

/// Finds the first declared field of the given name.
pub fn find_shape<'a>(fields: &'a Vec<(String, Shape)>, k: &String) -> (r: Option<&'a Shape>)
    ensures
        match lookup_field(sfields(fields@), k@) {
            Option::Some(fs) => r matches Option::Some(sh) && sview(*sh) == fs,
            Option::None => r is None,
        },
{
    proof {
        crate::value::lemma_sfields(fields@);
    }
    let ghost whole = sfields(fields@);
    proof {
        assert(whole.skip(0) =~= whole);
    }
    let mut j: usize = 0;
    while j < fields.len()
        invariant
            j <= fields@.len(),
            whole == sfields(fields@),
            whole.len() == fields@.len(),
            forall|i: int|
                0 <= i < fields@.len() ==> #[trigger] whole[i] == (
                fields@[i].0@,
                sview(fields@[i].1),
                ),
            lookup_field(whole, k@) == lookup_field(whole.skip(j as int), k@),
        decreases fields@.len() - j,
    {
        proof {
            assert(whole.skip(j as int)[0] == whole[j as int]);
        }
        if fields[j].0 == *k {
            proof {
                assert(lookup_field(whole.skip(j as int), k@) == Option::Some(whole[j as int].1));
            }
            return Some(&fields[j].1);
        }
        proof {
            assert(whole.skip(j as int).drop_first() =~= whole.skip(j + 1));
        }
        j = j + 1;
    }
    proof {
        assert(whole.skip(fields@.len() as int) =~= Seq::<(Seq<char>, ShapeV)>::empty());
    }
    None
}


impl Deserializer {
    /// Decodes a signed integer of a narrower width.
    pub fn deserialize_i8(&mut self) -> (r: Result<i8, Error>)
        ensures
            final(self).top_level == old(self).top_level,
            final(self).budget() <= old(self).budget(),
            r is Ok ==> final(self).budget() < old(self).budget(),
            forall|ts: Seq<TokenV>, tail: Seq<char>|
                #[trigger] old(self).has_stream(ts, tail) && ts.len() > 0 ==> (ts[0] matches
                TokenV::Item(sv) ==> {
                    &&& (crate::num::sint_grammar(sv) && i8::MIN <= crate::num::sint_val(sv)
                        <= i8::MAX) ==> (r matches Ok(n) && n == crate::num::sint_val(sv)
                        && final(self).has_stream(ts.skip(1), tail))
                    &&& !(crate::num::sint_grammar(sv) && i8::MIN <= crate::num::sint_val(sv)
                        <= i8::MAX) ==> (r matches Err(e) && e.deep_view() is StringParse)
                }),
            forall|ts: Seq<TokenV>, tail: Seq<char>|
                #[trigger] old(self).has_stream(ts, tail) && ts.len() > 0 && (ts[0] is GroupStart
                    || ts[0] is GroupEnd) ==> (r matches Err(e) && e.deep_view()
                    == ErrorV::Expected("Item"@, describe_token_spec(ts[0]))),
            old(self).sq().len() == 0 && ws_only(old(self).input@) ==> (r matches Err(e)
                && e.deep_view() is EarlyEOF),
    {
        match self.deserialize_i64() {
            Err(e) => Err(e),
            Ok(w) => if w < -128 || w > 127 {
                Err(Error::StringParse(String::from_str("number out of range for target type")))
            } else {
                Ok(w as i8)
            },
        }
    }

    /// Decodes a signed integer of a narrower width.
    pub fn deserialize_i16(&mut self) -> (r: Result<i16, Error>)
        ensures
            final(self).top_level == old(self).top_level,
            final(self).budget() <= old(self).budget(),
            r is Ok ==> final(self).budget() < old(self).budget(),
            forall|ts: Seq<TokenV>, tail: Seq<char>|
                #[trigger] old(self).has_stream(ts, tail) && ts.len() > 0 ==> (ts[0] matches
                TokenV::Item(sv) ==> {
                    &&& (crate::num::sint_grammar(sv) && i16::MIN <= crate::num::sint_val(sv)
                        <= i16::MAX) ==> (r matches Ok(n) && n == crate::num::sint_val(sv)
                        && final(self).has_stream(ts.skip(1), tail))
                    &&& !(crate::num::sint_grammar(sv) && i16::MIN <= crate::num::sint_val(sv)
                        <= i16::MAX) ==> (r matches Err(e) && e.deep_view() is StringParse)
                }),
            forall|ts: Seq<TokenV>, tail: Seq<char>|
                #[trigger] old(self).has_stream(ts, tail) && ts.len() > 0 && (ts[0] is GroupStart
                    || ts[0] is GroupEnd) ==> (r matches Err(e) && e.deep_view()
                    == ErrorV::Expected("Item"@, describe_token_spec(ts[0]))),
            old(self).sq().len() == 0 && ws_only(old(self).input@) ==> (r matches Err(e)
                && e.deep_view() is EarlyEOF),
    {
        match self.deserialize_i64() {
            Err(e) => Err(e),
            Ok(w) => if w < -32768 || w > 32767 {
                Err(Error::StringParse(String::from_str("number out of range for target type")))
            } else {
                Ok(w as i16)
            },
        }
    }

    /// Decodes a signed integer of a narrower width.
    pub fn deserialize_i32(&mut self) -> (r: Result<i32, Error>)
        ensures
            final(self).top_level == old(self).top_level,
            final(self).budget() <= old(self).budget(),
            r is Ok ==> final(self).budget() < old(self).budget(),
            forall|ts: Seq<TokenV>, tail: Seq<char>|
                #[trigger] old(self).has_stream(ts, tail) && ts.len() > 0 ==> (ts[0] matches
                TokenV::Item(sv) ==> {
                    &&& (crate::num::sint_grammar(sv) && i32::MIN <= crate::num::sint_val(sv)
                        <= i32::MAX) ==> (r matches Ok(n) && n == crate::num::sint_val(sv)
                        && final(self).has_stream(ts.skip(1), tail))
                    &&& !(crate::num::sint_grammar(sv) && i32::MIN <= crate::num::sint_val(sv)
                        <= i32::MAX) ==> (r matches Err(e) && e.deep_view() is StringParse)
                }),
            forall|ts: Seq<TokenV>, tail: Seq<char>|
                #[trigger] old(self).has_stream(ts, tail) && ts.len() > 0 && (ts[0] is GroupStart
                    || ts[0] is GroupEnd) ==> (r matches Err(e) && e.deep_view()
                    == ErrorV::Expected("Item"@, describe_token_spec(ts[0]))),
            old(self).sq().len() == 0 && ws_only(old(self).input@) ==> (r matches Err(e)
                && e.deep_view() is EarlyEOF),
    {
        match self.deserialize_i64() {
            Err(e) => Err(e),
            Ok(w) => if w < -2147483648i64 || w > 2147483647i64 {
                Err(Error::StringParse(String::from_str("number out of range for target type")))
            } else {
                Ok(w as i32)
            },
        }
    }

    /// Decodes an unsigned integer of a narrower width.
    pub fn deserialize_u8(&mut self) -> (r: Result<u8, Error>)
        ensures
            final(self).top_level == old(self).top_level,
            final(self).budget() <= old(self).budget(),
            r is Ok ==> final(self).budget() < old(self).budget(),
            forall|ts: Seq<TokenV>, tail: Seq<char>|
                #[trigger] old(self).has_stream(ts, tail) && ts.len() > 0 ==> (ts[0] matches
                TokenV::Item(sv) ==> {
                    &&& (crate::num::uint_grammar(sv) && crate::num::uint_val(sv) <= u8::MAX)
                        ==> (r matches Ok(n) && n == crate::num::uint_val(sv)
                        && final(self).has_stream(ts.skip(1), tail))
                    &&& !(crate::num::uint_grammar(sv) && crate::num::uint_val(sv) <= u8::MAX)
                        ==> (r matches Err(e) && e.deep_view() is StringParse)
                }),
            forall|ts: Seq<TokenV>, tail: Seq<char>|
                #[trigger] old(self).has_stream(ts, tail) && ts.len() > 0 && (ts[0] is GroupStart
                    || ts[0] is GroupEnd) ==> (r matches Err(e) && e.deep_view()
                    == ErrorV::Expected("Item"@, describe_token_spec(ts[0]))),
            old(self).sq().len() == 0 && ws_only(old(self).input@) ==> (r matches Err(e)
                && e.deep_view() is EarlyEOF),
    {
        match self.deserialize_u64() {
            Err(e) => Err(e),
            Ok(w) => if w > 255 {
                Err(Error::StringParse(String::from_str("number out of range for target type")))
            } else {
                Ok(w as u8)
            },
        }
    }

    /// Decodes an unsigned integer of a narrower width.
    pub fn deserialize_u16(&mut self) -> (r: Result<u16, Error>)
        ensures
            final(self).top_level == old(self).top_level,
            final(self).budget() <= old(self).budget(),
            r is Ok ==> final(self).budget() < old(self).budget(),
            forall|ts: Seq<TokenV>, tail: Seq<char>|
                #[trigger] old(self).has_stream(ts, tail) && ts.len() > 0 ==> (ts[0] matches
                TokenV::Item(sv) ==> {
                    &&& (crate::num::uint_grammar(sv) && crate::num::uint_val(sv) <= u16::MAX)
                        ==> (r matches Ok(n) && n == crate::num::uint_val(sv)
                        && final(self).has_stream(ts.skip(1), tail))
                    &&& !(crate::num::uint_grammar(sv) && crate::num::uint_val(sv) <= u16::MAX)
                        ==> (r matches Err(e) && e.deep_view() is StringParse)
                }),
            forall|ts: Seq<TokenV>, tail: Seq<char>|
                #[trigger] old(self).has_stream(ts, tail) && ts.len() > 0 && (ts[0] is GroupStart
                    || ts[0] is GroupEnd) ==> (r matches Err(e) && e.deep_view()
                    == ErrorV::Expected("Item"@, describe_token_spec(ts[0]))),
            old(self).sq().len() == 0 && ws_only(old(self).input@) ==> (r matches Err(e)
                && e.deep_view() is EarlyEOF),
    {
        match self.deserialize_u64() {
            Err(e) => Err(e),
            Ok(w) => if w > 65535 {
                Err(Error::StringParse(String::from_str("number out of range for target type")))
            } else {
                Ok(w as u16)
            },
        }
    }

    /// Decodes an unsigned integer of a narrower width.
    pub fn deserialize_u32(&mut self) -> (r: Result<u32, Error>)
        ensures
            final(self).top_level == old(self).top_level,
            final(self).budget() <= old(self).budget(),
            r is Ok ==> final(self).budget() < old(self).budget(),
            forall|ts: Seq<TokenV>, tail: Seq<char>|
                #[trigger] old(self).has_stream(ts, tail) && ts.len() > 0 ==> (ts[0] matches
                TokenV::Item(sv) ==> {
                    &&& (crate::num::uint_grammar(sv) && crate::num::uint_val(sv) <= u32::MAX)
                        ==> (r matches Ok(n) && n == crate::num::uint_val(sv)
                        && final(self).has_stream(ts.skip(1), tail))
                    &&& !(crate::num::uint_grammar(sv) && crate::num::uint_val(sv) <= u32::MAX)
                        ==> (r matches Err(e) && e.deep_view() is StringParse)
                }),
            forall|ts: Seq<TokenV>, tail: Seq<char>|
                #[trigger] old(self).has_stream(ts, tail) && ts.len() > 0 && (ts[0] is GroupStart
                    || ts[0] is GroupEnd) ==> (r matches Err(e) && e.deep_view()
                    == ErrorV::Expected("Item"@, describe_token_spec(ts[0]))),
            old(self).sq().len() == 0 && ws_only(old(self).input@) ==> (r matches Err(e)
                && e.deep_view() is EarlyEOF),
    {
        match self.deserialize_u64() {
            Err(e) => Err(e),
            Ok(w) => if w > 4294967295u64 {
                Err(Error::StringParse(String::from_str("number out of range for target type")))
            } else {
                Ok(w as u32)
            },
        }
    }
}


impl Deserializer {
    /// Decodes the key/value entries of a map group, each value by the one
    /// declared value shape, until the closing delimiter is in sight.
    fn dict_entries(&mut self, vshape: &Shape) -> (r: Result<Vec<(String, Value)>, Error>)
        ensures
            final(self).budget() <= old(self).budget(),
            forall|ves: Seq<(Seq<char>, ValueV)>, rest2: Seq<TokenV>, tail: Seq<char>|
                #![trigger old(self).has_stream(toks_entries(ves).add(rest2), tail)]
                entries_fit_dict(ves, sview(*vshape)) && entries_enc(ves) && (old(self).top_level
                    ==> entries_ff(ves)) && rest2.len() > 0 && rest2[0] == TokenV::GroupEnd && old(
                    self,
                ).has_stream(toks_entries(ves) + rest2, tail) ==> (r matches Ok(out) && ventries(
                    out@,
                ) == ves && final(self).has_stream(rest2, tail) && final(self).top_level == old(
                    self,
                ).top_level),
            forall|ves: Seq<(Seq<char>, ValueV)>, rest2: Seq<TokenV>, tail: Seq<char>|
                #![trigger old(self).has_stream(toks_entries(ves).add(rest2), tail)]
                entries_fit_dict(ves, sview(*vshape)) && entries_enc(ves) && (old(self).top_level
                    ==> entries_ff(ves)) && rest2.len() > 0 && rest2[0] == TokenV::GroupStart
                    && old(self).has_stream(toks_entries(ves) + rest2, tail) ==> (r matches Err(e)
                    && e.deep_view() == ErrorV::Expected(
                    "Item"@,
                    describe_token_spec(TokenV::GroupStart),
                )),
        decreases ssize(sview(*vshape)), 1int,
    {
        let mut out: Vec<(String, Value)> = Vec::new();
        proof {
            assert forall|ves: Seq<(Seq<char>, ValueV)>, rest2: Seq<TokenV>, tail: Seq<char>|
                entries_fit_dict(ves, sview(*vshape)) && entries_enc(ves) && (old(self).top_level
                    ==> entries_ff(ves)) && rest2.len() > 0 && (rest2[0]
                    == TokenV::GroupEnd || rest2[0] == TokenV::GroupStart) && #[trigger] old(
                    self,
                ).has_stream(
                    toks_entries(ves).add(rest2),
                    tail,
                ) implies (out@.len() <= ves.len() && ventries(out@) == ves.take(out@.len() as int)
                && self.has_stream(toks_entries(ves.skip(out@.len() as int)) + rest2, tail)
                && self.top_level == old(self).top_level) by {
                assert(ventries(out@) =~= ves.take(0));
                assert(ves.skip(0) =~= ves);
            }
        }
        loop
            invariant
                self.budget() <= old(self).budget(),
                forall|ves: Seq<(Seq<char>, ValueV)>, rest2: Seq<TokenV>, tail: Seq<char>|
                    entries_fit_dict(ves, sview(*vshape)) && entries_enc(ves) && (old(
                        self,
                    ).top_level ==> entries_ff(ves)) && rest2.len() > 0 && (rest2[0]
                        == TokenV::GroupEnd || rest2[0] == TokenV::GroupStart) && #[trigger] old(self).has_stream(
                        toks_entries(ves).add(rest2),
                        tail,
                    ) ==> (out@.len() <= ves.len() && ventries(out@) == ves.take(
                        out@.len() as int,
                    ) && self.has_stream(toks_entries(ves.skip(out@.len() as int)) + rest2, tail)
                        && self.top_level == old(self).top_level),
            decreases self.budget(),
        {
            let ghost s0 = *self;
            let ghost n0 = out@.len();
            let ghost o0 = out@;
            let is_end = match self.peek_token() {
                Err(e) => {
                    proof {
                        assert forall|
                            ves: Seq<(Seq<char>, ValueV)>,
                            rest2: Seq<TokenV>,
                            tail: Seq<char>,
                        |
                            entries_fit_dict(ves, sview(*vshape)) && entries_enc(ves) && (old(
                                self,
                            ).top_level ==> entries_ff(ves)) && rest2.len() > 0 && (rest2[0]
                                == TokenV::GroupEnd || rest2[0] == TokenV::GroupStart) && #[trigger] old(self).has_stream(
                                toks_entries(ves).add(rest2),
                                tail,
                            ) implies false by {
                            let ts2 = toks_entries(ves.skip(n0 as int)) + rest2;
                            assert(s0.has_stream(ts2, tail));
                            assert(ts2.len() > 0);
                        }
                    }
                    return Err(e);
                },
                Ok(t) => match t {
                    Token::GroupEnd => true,
                    _ => false,
                },
            };
            if is_end {
                proof {
                    assert forall|
                        ves: Seq<(Seq<char>, ValueV)>,
                        rest2: Seq<TokenV>,
                        tail: Seq<char>,
                    |
                        entries_fit_dict(ves, sview(*vshape)) && entries_enc(ves) && (old(
                            self,
                        ).top_level ==> entries_ff(ves)) && rest2.len() > 0 && (rest2[0]
                            == TokenV::GroupEnd || rest2[0] == TokenV::GroupStart) && #[trigger] old(self).has_stream(
                            toks_entries(ves).add(rest2),
                            tail,
                        ) implies (ventries(out@) == ves && self.has_stream(rest2, tail)
                        && self.top_level == old(self).top_level) by {
                        let ts2 = toks_entries(ves.skip(n0 as int)) + rest2;
                        assert(s0.has_stream(ts2, tail));
                        assert(ts2.len() > 0);
                        if n0 < ves.len() {
                            let vrest = ves.skip(n0 as int);
                            assert(vrest.len() > 0);
                            assert(ts2[0] == TokenV::Item(vrest[0].0));
                            assert(false);
                        }
                        assert(ves.skip(n0 as int) =~= Seq::<(Seq<char>, ValueV)>::empty());
                        assert(toks_entries(ves.skip(n0 as int)) + rest2 =~= rest2);
                        assert(ves.take(n0 as int) =~= ves);
                    }
                    assert forall|
                        ves: Seq<(Seq<char>, ValueV)>,
                        rest2: Seq<TokenV>,
                        tail: Seq<char>,
                    |
                        entries_fit_dict(ves, sview(*vshape)) && entries_enc(ves) && (old(
                            self,
                        ).top_level ==> entries_ff(ves)) && rest2.len() > 0 && rest2[0]
                            == TokenV::GroupStart && #[trigger] old(self).has_stream(
                            toks_entries(ves).add(rest2),
                            tail,
                        ) implies false by {
                        let ts2 = toks_entries(ves.skip(n0 as int)) + rest2;
                        assert(s0.has_stream(ts2, tail));
                        assert(ts2.len() > 0);
                        if n0 < ves.len() {
                            let vrest = ves.skip(n0 as int);
                            assert(ts2[0] == TokenV::Item(vrest[0].0));
                        } else {
                            assert(ves.skip(n0 as int) =~= Seq::<(Seq<char>, ValueV)>::empty());
                            assert(ts2 =~= rest2);
                            assert(ts2[0] == TokenV::GroupStart);
                        }
                    }
                }
                return Ok(out);
            }
            let ghost s1 = *self;
            let key = match self.next_token_item() {
                Err(e) => {
                    proof {
                        assert forall|
                            ves: Seq<(Seq<char>, ValueV)>,
                            rest2: Seq<TokenV>,
                            tail: Seq<char>,
                        |
                            entries_fit_dict(ves, sview(*vshape)) && entries_enc(ves) && (old(
                                self,
                            ).top_level ==> entries_ff(ves)) && rest2.len() > 0 && (rest2[0]
                                == TokenV::GroupEnd || rest2[0] == TokenV::GroupStart) && #[trigger] old(self).has_stream(
                                toks_entries(ves).add(rest2),
                                tail,
                            ) implies (rest2[0] == TokenV::GroupEnd ==> false) && (rest2[0]
                                == TokenV::GroupStart ==> e.deep_view() == ErrorV::Expected(
                                "Item"@,
                                describe_token_spec(TokenV::GroupStart),
                            )) by {
                            let ts2 = toks_entries(ves.skip(n0 as int)) + rest2;
                            assert(s0.has_stream(ts2, tail));
                            assert(ts2.len() > 0);
                            if n0 < ves.len() {
                                let vrest = ves.skip(n0 as int);
                                assert(ts2[0] == TokenV::Item(vrest[0].0));
                            } else {
                                assert(ves.skip(n0 as int)
                                    =~= Seq::<(Seq<char>, ValueV)>::empty());
                                assert(ts2 =~= rest2);
                                assert(s1.has_stream(ts2, tail));
                            }
                        }
                    }
                    return Err(e);
                },
                Ok(k) => k,
            };
            let ghost s2 = *self;
            let val = match self.decode_value(vshape) {
                Err(e) => {
                    proof {
                        assert forall|
                            ves: Seq<(Seq<char>, ValueV)>,
                            rest2: Seq<TokenV>,
                            tail: Seq<char>,
                        |
                            entries_fit_dict(ves, sview(*vshape)) && entries_enc(ves) && (old(
                                self,
                            ).top_level ==> entries_ff(ves)) && rest2.len() > 0 && (rest2[0]
                                == TokenV::GroupEnd || rest2[0] == TokenV::GroupStart) && #[trigger] old(self).has_stream(
                                toks_entries(ves).add(rest2),
                                tail,
                            ) implies false by {
                            let ts2 = toks_entries(ves.skip(n0 as int)) + rest2;
                            assert(s0.has_stream(ts2, tail));
                            assert(ts2.len() > 0);
                            if n0 < ves.len() {
                                let vrest = ves.skip(n0 as int);
                                let vv = vrest[0].1;
                                assert(ts2[0] == TokenV::Item(vrest[0].0));
                                assert(ts2.skip(1) =~= toks_v(vv, false) + (toks_entries(
                                    vrest.subrange(1, vrest.len() as int),
                                ) + rest2));
                                assert(s2.has_stream(ts2.skip(1), tail));
                                if s2.top_level {
                                    lemma_toks_flag_free(vv);
                                    lemma_flag_free_top_ok(vv);
                                }
                                assert(toks_v(vv, s2.top_level) == toks_v(vv, false));
                                assert(s2.has_stream(
                                    toks_v(vv, s1.top_level) + (toks_entries(
                                        vrest.subrange(1, vrest.len() as int),
                                    ) + rest2),
                                    tail,
                                ));
                            } else {
                                assert(ves.skip(n0 as int)
                                    =~= Seq::<(Seq<char>, ValueV)>::empty());
                                assert(ts2 =~= rest2);
                                assert(s1.has_stream(ts2, tail));
                            }
                        }
                    }
                    return Err(e);
                },
                Ok(v) => v,
            };
            out.push((key, val));
            proof {
                assert forall|ves: Seq<(Seq<char>, ValueV)>, rest2: Seq<TokenV>, tail: Seq<char>|
                    entries_fit_dict(ves, sview(*vshape)) && entries_enc(ves) && (old(
                        self,
                    ).top_level ==> entries_ff(ves)) && rest2.len() > 0 && (rest2[0]
                        == TokenV::GroupEnd || rest2[0] == TokenV::GroupStart) && #[trigger] old(self).has_stream(
                        toks_entries(ves).add(rest2),
                        tail,
                    ) implies (out@.len() <= ves.len() && ventries(out@) == ves.take(
                        out@.len() as int,
                    ) && self.has_stream(toks_entries(ves.skip(out@.len() as int)) + rest2, tail)
                        && self.top_level == old(self).top_level) by {
                    let ts2 = toks_entries(ves.skip(n0 as int)) + rest2;
                    assert(s0.has_stream(ts2, tail));
                    assert(ts2.len() > 0);
                    if n0 < ves.len() {
                        let vrest = ves.skip(n0 as int);
                        let vv = vrest[0].1;
                        assert(ts2[0] == TokenV::Item(vrest[0].0));
                        assert(key@ == vrest[0].0);
                        assert(ts2.skip(1) =~= toks_v(vv, false) + (toks_entries(
                            vrest.subrange(1, vrest.len() as int),
                        ) + rest2));
                        assert(s2.has_stream(ts2.skip(1), tail));
                        if s2.top_level {
                            lemma_toks_flag_free(vv);
                            lemma_flag_free_top_ok(vv);
                        }
                        assert(toks_v(vv, s2.top_level) == toks_v(vv, false));
                        assert(s2.has_stream(
                            toks_v(vv, s1.top_level) + (toks_entries(
                                vrest.subrange(1, vrest.len() as int),
                            ) + rest2),
                            tail,
                        ));
                        assert(vview(val) == vv);
                        assert(self.has_stream(
                            toks_entries(vrest.subrange(1, vrest.len() as int)) + rest2,
                            tail,
                        ));
                        assert(vrest.subrange(1, vrest.len() as int) =~= ves.skip(n0 as int + 1));
                        assert(out@ =~= o0.push((key, val)));
                        crate::value::lemma_ventries(out@);
                        crate::value::lemma_ventries(o0);
                        assert(ventries(out@) =~= ves.take(n0 as int + 1)) by {
                            crate::value::lemma_ventries(out@);
                            crate::value::lemma_ventries(o0);
                            assert(forall|i: int|
                                0 <= i < n0 ==> #[trigger] out@[i] == o0[i]);
                            assert(ventries(o0) == ves.take(n0 as int));
                            assert(forall|i: int|
                                0 <= i < n0 ==> #[trigger] ventries(out@)[i] == ventries(o0)[i]);
                            assert(ventries(out@)[n0 as int] == (key@, vview(val)));
                        }
                    } else {
                        assert(ves.skip(n0 as int) =~= Seq::<(Seq<char>, ValueV)>::empty());
                        assert(ts2 =~= rest2);
                        assert(s1.has_stream(ts2, tail));
                        assert(false);
                    }
                }
            }
        }
    }
}


/// The token that carries a document's top-level name, when one is pending.
pub open spec fn name_toks(top: bool, n: Seq<char>) -> Seq<TokenV> {
    if top {
        seq![TokenV::Item(n)]
    } else {
        Seq::empty()
    }
}

impl Deserializer {
    /// Decodes the key/value entries of a record group: each key must be a
    /// declared field, whose shape directs its value, until the closing
    /// delimiter is in sight. Field order and presence are not validated.
    fn record_entries(&mut self, fields: &Vec<(String, Shape)>) -> (r: Result<
        Vec<(String, Value)>,
        Error,
    >)
        ensures
            final(self).budget() <= old(self).budget(),
            forall|ves: Seq<(Seq<char>, ValueV)>, rest2: Seq<TokenV>, tail: Seq<char>|
                #![trigger old(self).has_stream(toks_entries(ves).add(rest2), tail)]
                entries_fit(ves, sfields(fields@)) && entries_enc(ves) && (old(self).top_level
                    ==> entries_ff(ves)) && rest2.len() > 0 && rest2[0] == TokenV::GroupEnd && old(
                    self,
                ).has_stream(toks_entries(ves) + rest2, tail) ==> (r matches Ok(out) && ventries(
                    out@,
                ) == ves && final(self).has_stream(rest2, tail) && final(self).top_level == old(
                    self,
                ).top_level),
            forall|ves: Seq<(Seq<char>, ValueV)>, rest2: Seq<TokenV>, tail: Seq<char>|
                #![trigger old(self).has_stream(toks_entries(ves).add(rest2), tail)]
                entries_fit(ves, sfields(fields@)) && entries_enc(ves) && (old(self).top_level
                    ==> entries_ff(ves)) && rest2.len() > 0 && rest2[0] == TokenV::GroupStart
                    && old(self).has_stream(toks_entries(ves) + rest2, tail) ==> (r matches Err(e)
                    && e.deep_view() == ErrorV::Expected(
                    "Item"@,
                    describe_token_spec(TokenV::GroupStart),
                )),
        decreases fsize(sfields(fields@)), 1int,
    {
        let mut out: Vec<(String, Value)> = Vec::new();
        proof {
            assert forall|ves: Seq<(Seq<char>, ValueV)>, rest2: Seq<TokenV>, tail: Seq<char>|
                entries_fit(ves, sfields(fields@)) && entries_enc(ves) && (old(self).top_level
                    ==> entries_ff(ves)) && rest2.len() > 0 && (rest2[0]
                    == TokenV::GroupEnd || rest2[0] == TokenV::GroupStart) && #[trigger] old(
                    self,
                ).has_stream(
                    toks_entries(ves).add(rest2),
                    tail,
                ) implies (out@.len() <= ves.len() && ventries(out@) == ves.take(out@.len() as int)
                && self.has_stream(toks_entries(ves.skip(out@.len() as int)) + rest2, tail)
                && self.top_level == old(self).top_level) by {
                assert(ventries(out@) =~= ves.take(0));
                assert(ves.skip(0) =~= ves);
            }
        }
        loop
            invariant
                self.budget() <= old(self).budget(),
                forall|ves: Seq<(Seq<char>, ValueV)>, rest2: Seq<TokenV>, tail: Seq<char>|
                    entries_fit(ves, sfields(fields@)) && entries_enc(ves) && (old(
                        self,
                    ).top_level ==> entries_ff(ves)) && rest2.len() > 0 && (rest2[0]
                        == TokenV::GroupEnd || rest2[0] == TokenV::GroupStart) && #[trigger] old(self).has_stream(
                        toks_entries(ves).add(rest2),
                        tail,
                    ) ==> (out@.len() <= ves.len() && ventries(out@) == ves.take(
                        out@.len() as int,
                    ) && self.has_stream(toks_entries(ves.skip(out@.len() as int)) + rest2, tail)
                        && self.top_level == old(self).top_level),
            decreases self.budget(),
        {
            let ghost s0 = *self;
            let ghost n0 = out@.len();
            let ghost o0 = out@;
            let is_end = match self.peek_token() {
                Err(e) => {
                    proof {
                        assert forall|
                            ves: Seq<(Seq<char>, ValueV)>,
                            rest2: Seq<TokenV>,
                            tail: Seq<char>,
                        |
                            entries_fit(ves, sfields(fields@)) && entries_enc(ves) && (old(
                                self,
                            ).top_level ==> entries_ff(ves)) && rest2.len() > 0 && (rest2[0]
                                == TokenV::GroupEnd || rest2[0] == TokenV::GroupStart) && #[trigger] old(self).has_stream(
                                toks_entries(ves).add(rest2),
                                tail,
                            ) implies false by {
                            let ts2 = toks_entries(ves.skip(n0 as int)) + rest2;
                            assert(s0.has_stream(ts2, tail));
                            assert(ts2.len() > 0);
                        }
                    }
                    return Err(e);
                },
                Ok(t) => match t {
                    Token::GroupEnd => true,
                    _ => false,
                },
            };
            if is_end {
                proof {
                    assert forall|
                        ves: Seq<(Seq<char>, ValueV)>,
                        rest2: Seq<TokenV>,
                        tail: Seq<char>,
                    |
                        entries_fit(ves, sfields(fields@)) && entries_enc(ves) && (old(
                            self,
                        ).top_level ==> entries_ff(ves)) && rest2.len() > 0 && (rest2[0]
                            == TokenV::GroupEnd || rest2[0] == TokenV::GroupStart) && #[trigger] old(self).has_stream(
                            toks_entries(ves).add(rest2),
                            tail,
                        ) implies (ventries(out@) == ves && self.has_stream(rest2, tail)
                        && self.top_level == old(self).top_level) by {
                        let ts2 = toks_entries(ves.skip(n0 as int)) + rest2;
                        assert(s0.has_stream(ts2, tail));
                        assert(ts2.len() > 0);
                        if n0 < ves.len() {
                            let vrest = ves.skip(n0 as int);
                            assert(vrest.len() > 0);
                            assert(ts2[0] == TokenV::Item(vrest[0].0));
                            assert(false);
                        }
                        assert(ves.skip(n0 as int) =~= Seq::<(Seq<char>, ValueV)>::empty());
                        assert(toks_entries(ves.skip(n0 as int)) + rest2 =~= rest2);
                        assert(ves.take(n0 as int) =~= ves);
                    }
                    assert forall|
                        ves: Seq<(Seq<char>, ValueV)>,
                        rest2: Seq<TokenV>,
                        tail: Seq<char>,
                    |
                        entries_fit(ves, sfields(fields@)) && entries_enc(ves) && (old(
                            self,
                        ).top_level ==> entries_ff(ves)) && rest2.len() > 0 && rest2[0]
                            == TokenV::GroupStart && #[trigger] old(self).has_stream(
                            toks_entries(ves).add(rest2),
                            tail,
                        ) implies false by {
                        let ts2 = toks_entries(ves.skip(n0 as int)) + rest2;
                        assert(s0.has_stream(ts2, tail));
                        assert(ts2.len() > 0);
                        if n0 < ves.len() {
                            let vrest = ves.skip(n0 as int);
                            assert(ts2[0] == TokenV::Item(vrest[0].0));
                        } else {
                            assert(ves.skip(n0 as int) =~= Seq::<(Seq<char>, ValueV)>::empty());
                            assert(ts2 =~= rest2);
                            assert(ts2[0] == TokenV::GroupStart);
                        }
                    }
                }
                return Ok(out);
            }
            let ghost s1 = *self;
            let key = match self.next_token_item() {
                Err(e) => {
                    proof {
                        assert forall|
                            ves: Seq<(Seq<char>, ValueV)>,
                            rest2: Seq<TokenV>,
                            tail: Seq<char>,
                        |
                            entries_fit(ves, sfields(fields@)) && entries_enc(ves) && (old(
                                self,
                            ).top_level ==> entries_ff(ves)) && rest2.len() > 0 && (rest2[0]
                                == TokenV::GroupEnd || rest2[0] == TokenV::GroupStart) && #[trigger] old(self).has_stream(
                                toks_entries(ves).add(rest2),
                                tail,
                            ) implies (rest2[0] == TokenV::GroupEnd ==> false) && (rest2[0]
                                == TokenV::GroupStart ==> e.deep_view() == ErrorV::Expected(
                                "Item"@,
                                describe_token_spec(TokenV::GroupStart),
                            )) by {
                            let ts2 = toks_entries(ves.skip(n0 as int)) + rest2;
                            assert(s0.has_stream(ts2, tail));
                            assert(ts2.len() > 0);
                            if n0 < ves.len() {
                                let vrest = ves.skip(n0 as int);
                                assert(ts2[0] == TokenV::Item(vrest[0].0));
                            } else {
                                assert(ves.skip(n0 as int)
                                    =~= Seq::<(Seq<char>, ValueV)>::empty());
                                assert(ts2 =~= rest2);
                                assert(s1.has_stream(ts2, tail));
                            }
                        }
                    }
                    return Err(e);
                },
                Ok(k) => k,
            };
            let ghost s2 = *self;
            let sh = match find_shape(fields, &key) {
                Some(sh) => sh,
                None => {
                    proof {
                        assert forall|
                            ves: Seq<(Seq<char>, ValueV)>,
                            rest2: Seq<TokenV>,
                            tail: Seq<char>,
                        |
                            entries_fit(ves, sfields(fields@)) && entries_enc(ves) && (old(
                                self,
                            ).top_level ==> entries_ff(ves)) && rest2.len() > 0 && (rest2[0]
                                == TokenV::GroupEnd || rest2[0] == TokenV::GroupStart) && #[trigger] old(self).has_stream(
                                toks_entries(ves).add(rest2),
                                tail,
                            ) implies false by {
                            let ts2 = toks_entries(ves.skip(n0 as int)) + rest2;
                            assert(s0.has_stream(ts2, tail));
                            assert(ts2.len() > 0);
                            if n0 < ves.len() {
                                let vrest = ves.skip(n0 as int);
                                assert(ts2[0] == TokenV::Item(vrest[0].0));
                                assert(key@ == vrest[0].0);
                                assert(lookup_field(sfields(fields@), key@) is Some);
                            } else {
                                assert(ves.skip(n0 as int)
                                    =~= Seq::<(Seq<char>, ValueV)>::empty());
                                assert(ts2 =~= rest2);
                                assert(s1.has_stream(ts2, tail));
                            }
                        }
                    }
                    return Err(Error::UnsupportedType("any"));
                },
            };
            proof {
                assert(lookup_field(sfields(fields@), key@) is Some);
                lemma_fsize_lookup(sfields(fields@), key@);
            }
            let val = match self.decode_value(sh) {
                Err(e) => {
                    proof {
                        assert forall|
                            ves: Seq<(Seq<char>, ValueV)>,
                            rest2: Seq<TokenV>,
                            tail: Seq<char>,
                        |
                            entries_fit(ves, sfields(fields@)) && entries_enc(ves) && (old(
                                self,
                            ).top_level ==> entries_ff(ves)) && rest2.len() > 0 && (rest2[0]
                                == TokenV::GroupEnd || rest2[0] == TokenV::GroupStart) && #[trigger] old(self).has_stream(
                                toks_entries(ves).add(rest2),
                                tail,
                            ) implies false by {
                            let ts2 = toks_entries(ves.skip(n0 as int)) + rest2;
                            assert(s0.has_stream(ts2, tail));
                            assert(ts2.len() > 0);
                            if n0 < ves.len() {
                                let vrest = ves.skip(n0 as int);
                                let vv = vrest[0].1;
                                assert(ts2[0] == TokenV::Item(vrest[0].0));
                                assert(key@ == vrest[0].0);
                                assert(fits(vv, sview(*sh)));
                                assert(ts2.skip(1) =~= toks_v(vv, false) + (toks_entries(
                                    vrest.subrange(1, vrest.len() as int),
                                ) + rest2));
                                assert(s2.has_stream(ts2.skip(1), tail));
                                if s2.top_level {
                                    lemma_toks_flag_free(vv);
                                    lemma_flag_free_top_ok(vv);
                                }
                                assert(toks_v(vv, s2.top_level) == toks_v(vv, false));
                                assert(s2.has_stream(
                                    toks_v(vv, s1.top_level) + (toks_entries(
                                        vrest.subrange(1, vrest.len() as int),
                                    ) + rest2),
                                    tail,
                                ));
                            } else {
                                assert(ves.skip(n0 as int)
                                    =~= Seq::<(Seq<char>, ValueV)>::empty());
                                assert(ts2 =~= rest2);
                                assert(s1.has_stream(ts2, tail));
                            }
                        }
                    }
                    return Err(e);
                },
                Ok(v) => v,
            };
            out.push((key, val));
            proof {
                assert forall|ves: Seq<(Seq<char>, ValueV)>, rest2: Seq<TokenV>, tail: Seq<char>|
                    entries_fit(ves, sfields(fields@)) && entries_enc(ves) && (old(
                        self,
                    ).top_level ==> entries_ff(ves)) && rest2.len() > 0 && (rest2[0]
                        == TokenV::GroupEnd || rest2[0] == TokenV::GroupStart) && #[trigger] old(self).has_stream(
                        toks_entries(ves).add(rest2),
                        tail,
                    ) implies (out@.len() <= ves.len() && ventries(out@) == ves.take(
                        out@.len() as int,
                    ) && self.has_stream(toks_entries(ves.skip(out@.len() as int)) + rest2, tail)
                        && self.top_level == old(self).top_level) by {
                    let ts2 = toks_entries(ves.skip(n0 as int)) + rest2;
                    assert(s0.has_stream(ts2, tail));
                    assert(ts2.len() > 0);
                    if n0 < ves.len() {
                        let vrest = ves.skip(n0 as int);
                        let vv = vrest[0].1;
                        assert(ts2[0] == TokenV::Item(vrest[0].0));
                        assert(key@ == vrest[0].0);
                        assert(fits(vv, sview(*sh)));
                        assert(ts2.skip(1) =~= toks_v(vv, false) + (toks_entries(
                            vrest.subrange(1, vrest.len() as int),
                        ) + rest2));
                        assert(s2.has_stream(ts2.skip(1), tail));
                        if s2.top_level {
                            lemma_toks_flag_free(vv);
                            lemma_flag_free_top_ok(vv);
                        }
                        assert(toks_v(vv, s2.top_level) == toks_v(vv, false));
                        assert(s2.has_stream(
                            toks_v(vv, s1.top_level) + (toks_entries(
                                vrest.subrange(1, vrest.len() as int),
                            ) + rest2),
                            tail,
                        ));
                        assert(vview(val) == vv);
                        assert(self.has_stream(
                            toks_entries(vrest.subrange(1, vrest.len() as int)) + rest2,
                            tail,
                        ));
                        assert(vrest.subrange(1, vrest.len() as int) =~= ves.skip(n0 as int + 1));
                        assert(out@ =~= o0.push((key, val)));
                        assert(ventries(out@) =~= ves.take(n0 as int + 1)) by {
                            crate::value::lemma_ventries(out@);
                            crate::value::lemma_ventries(o0);
                            assert(forall|i: int| 0 <= i < n0 ==> #[trigger] out@[i] == o0[i]);
                            assert(ventries(o0) == ves.take(n0 as int));
                            assert(forall|i: int|
                                0 <= i < n0 ==> #[trigger] ventries(out@)[i] == ventries(o0)[i]);
                            assert(ventries(out@)[n0 as int] == (key@, vview(val)));
                        }
                    } else {
                        assert(ves.skip(n0 as int) =~= Seq::<(Seq<char>, ValueV)>::empty());
                        assert(ts2 =~= rest2);
                        assert(s1.has_stream(ts2, tail));
                        assert(false);
                    }
                }
            }
        }
    }
}


impl Deserializer {
    /// Decodes a map: a group of key/value entries, every value of the one
    /// given shape, with no name handling of its own.
    pub fn deserialize_map(&mut self, vshape: &Shape) -> (r: Result<Vec<(String, Value)>, Error>)
        ensures
            final(self).budget() <= old(self).budget(),
            forall|ves: Seq<(Seq<char>, ValueV)>, rest2: Seq<TokenV>, tail: Seq<char>|
                #![trigger old(self).has_stream(seq![TokenV::GroupStart].add(toks_entries(ves)).add(rest2), tail)]
                entries_fit_dict(ves, sview(*vshape)) && entries_enc(ves) && (old(self).top_level
                    ==> entries_ff(ves)) && rest2.len() > 0 && rest2[0] == TokenV::GroupEnd && old(
                    self,
                ).has_stream(seq![TokenV::GroupStart] + toks_entries(ves) + rest2, tail) ==> (r
                    matches Ok(out) && ventries(out@) == ves && final(self).has_stream(
                    rest2.skip(1),
                    tail,
                ) && final(self).top_level == old(self).top_level),
            forall|ts: Seq<TokenV>, tail: Seq<char>|
                #[trigger] old(self).has_stream(ts, tail) && ts.len() > 0 && !(ts[0]
                    is GroupStart) ==> (r matches Err(e) && e.deep_view() == ErrorV::Expected(
                    "'{'"@,
                    describe_token_spec(ts[0]),
                )),
            forall|ves: Seq<(Seq<char>, ValueV)>, rest2: Seq<TokenV>, tail: Seq<char>|
                #![trigger old(self).has_stream(seq![TokenV::GroupStart].add(toks_entries(ves)).add(rest2), tail)]
                entries_fit_dict(ves, sview(*vshape)) && entries_enc(ves) && (old(self).top_level
                    ==> entries_ff(ves)) && rest2.len() > 0 && rest2[0] == TokenV::GroupStart
                    && old(self).has_stream(
                    seq![TokenV::GroupStart] + toks_entries(ves) + rest2,
                    tail,
                ) ==> (r matches Err(e) && e.deep_view() == ErrorV::Expected(
                    "Item"@,
                    describe_token_spec(TokenV::GroupStart),
                )),
            old(self).sq().len() == 0 && ws_only(old(self).input@) ==> (r matches Err(e)
                && e.deep_view() is EarlyEOF),
        decreases ssize(sview(*vshape)), 2int,
    {
        let ghost s0 = *self;
        let t = match self.next_token() {
            Err(e) => {
            proof {
                assert forall|ves: Seq<(Seq<char>, ValueV)>, rest2: Seq<TokenV>, tail: Seq<char>|
                    entries_fit_dict(ves, sview(*vshape)) && entries_enc(ves) && (old(
                        self,
                    ).top_level ==> entries_ff(ves)) && rest2.len() > 0 && rest2[0]
                        == TokenV::GroupStart && #[trigger] old(self).has_stream(
                        seq![TokenV::GroupStart].add(toks_entries(ves)).add(rest2),
                        tail,
                    ) implies false by {
                    let ts = seq![TokenV::GroupStart] + toks_entries(ves) + rest2;
                    assert(ts.len() > 0);
                    assert(ts[0] == TokenV::GroupStart);
                }
            }
                return Err(e);
            },
            Ok(t) => t,
        };
        let ghost s1 = *self;
        match t {
            Token::GroupStart => (),
            got => {
                return Err(Error::Expected(String::from_str("'{'"), describe_token(&got)));
            },
        }
        let entries = match self.dict_entries(vshape) {
            Err(e) => {
                proof {
                    assert forall|
                        ves: Seq<(Seq<char>, ValueV)>,
                        rest2: Seq<TokenV>,
                        tail: Seq<char>,
                    |
                        entries_fit_dict(ves, sview(*vshape)) && entries_enc(ves) && (old(
                            self,
                        ).top_level ==> entries_ff(ves)) && rest2.len() > 0 && rest2[0]
                            == TokenV::GroupEnd && #[trigger] old(self).has_stream(
                            seq![TokenV::GroupStart].add(toks_entries(ves)).add(rest2),
                            tail,
                        ) implies false by {
                        let ts = seq![TokenV::GroupStart] + toks_entries(ves) + rest2;
                        assert(ts[0] == TokenV::GroupStart);
                        assert(ts.skip(1) =~= toks_entries(ves) + rest2);
                        assert(s1.has_stream(toks_entries(ves).add(rest2), tail));
                    }
                    assert forall|
                        ves: Seq<(Seq<char>, ValueV)>,
                        rest2: Seq<TokenV>,
                        tail: Seq<char>,
                    |
                        entries_fit_dict(ves, sview(*vshape)) && entries_enc(ves) && (old(
                            self,
                        ).top_level ==> entries_ff(ves)) && rest2.len() > 0 && rest2[0]
                            == TokenV::GroupStart && #[trigger] old(self).has_stream(
                            seq![TokenV::GroupStart].add(toks_entries(ves)).add(rest2),
                            tail,
                        ) implies e.deep_view() == ErrorV::Expected(
                        "Item"@,
                        describe_token_spec(TokenV::GroupStart),
                    ) by {
                        let ts = seq![TokenV::GroupStart] + toks_entries(ves) + rest2;
                        assert(ts[0] == TokenV::GroupStart);
                        assert(ts.skip(1) =~= toks_entries(ves) + rest2);
                        assert(s1.has_stream(toks_entries(ves).add(rest2), tail));
                    }
                }
                return Err(e);
            },
            Ok(es) => es,
        };
        let ghost s2 = *self;
        let t2 = match self.next_token() {
            Err(e) => {
                proof {
                    assert forall|
                        ves: Seq<(Seq<char>, ValueV)>,
                        rest2: Seq<TokenV>,
                        tail: Seq<char>,
                    |
                        entries_fit_dict(ves, sview(*vshape)) && entries_enc(ves) && (old(
                            self,
                        ).top_level ==> entries_ff(ves)) && rest2.len() > 0 && rest2[0]
                            == TokenV::GroupEnd && #[trigger] old(self).has_stream(
                            seq![TokenV::GroupStart].add(toks_entries(ves)).add(rest2),
                            tail,
                        ) implies false by {
                        let ts = seq![TokenV::GroupStart] + toks_entries(ves) + rest2;
                        assert(ts[0] == TokenV::GroupStart);
                        assert(ts.skip(1) =~= toks_entries(ves) + rest2);
                        assert(s1.has_stream(toks_entries(ves).add(rest2), tail));
                        assert(s2.has_stream(rest2, tail));
                    }
                }
                proof {
                    assert forall|
                        ves: Seq<(Seq<char>, ValueV)>,
                        rest2: Seq<TokenV>,
                        tail: Seq<char>,
                    |
                        entries_fit_dict(ves, sview(*vshape)) && entries_enc(ves) && (old(
                            self,
                        ).top_level ==> entries_ff(ves)) && rest2.len() > 0 && rest2[0]
                            == TokenV::GroupStart && #[trigger] old(self).has_stream(
                            seq![TokenV::GroupStart].add(toks_entries(ves)).add(rest2),
                            tail,
                        ) implies false by {
                        let ts = seq![TokenV::GroupStart] + toks_entries(ves) + rest2;
                        assert(ts[0] == TokenV::GroupStart);
                        assert(ts.skip(1) =~= toks_entries(ves) + rest2);
                        assert(s1.has_stream(toks_entries(ves).add(rest2), tail));
                    }
                }
                return Err(e);
            },
            Ok(t2) => t2,
        };
        match t2 {
            Token::GroupEnd => {
                proof {
                    assert forall|
                        ves: Seq<(Seq<char>, ValueV)>,
                        rest2: Seq<TokenV>,
                        tail: Seq<char>,
                    |
                        entries_fit_dict(ves, sview(*vshape)) && entries_enc(ves) && (old(
                            self,
                        ).top_level ==> entries_ff(ves)) && rest2.len() > 0 && rest2[0]
                            == TokenV::GroupEnd && #[trigger] old(self).has_stream(
                            seq![TokenV::GroupStart].add(toks_entries(ves)).add(rest2),
                            tail,
                        ) implies (ventries(entries@) == ves && final(self).has_stream(
                        rest2.skip(1),
                        tail,
                    ) && final(self).top_level == old(self).top_level) by {
                        let ts = seq![TokenV::GroupStart] + toks_entries(ves) + rest2;
                        assert(ts[0] == TokenV::GroupStart);
                        assert(ts.skip(1) =~= toks_entries(ves) + rest2);
                        assert(s1.has_stream(toks_entries(ves).add(rest2), tail));
                        assert(s2.has_stream(rest2, tail));
                    }
                    assert forall|
                        ves: Seq<(Seq<char>, ValueV)>,
                        rest2: Seq<TokenV>,
                        tail: Seq<char>,
                    |
                        entries_fit_dict(ves, sview(*vshape)) && entries_enc(ves) && (old(
                            self,
                        ).top_level ==> entries_ff(ves)) && rest2.len() > 0 && rest2[0]
                            == TokenV::GroupStart && #[trigger] old(self).has_stream(
                            seq![TokenV::GroupStart].add(toks_entries(ves)).add(rest2),
                            tail,
                        ) implies false by {
                        let ts = seq![TokenV::GroupStart] + toks_entries(ves) + rest2;
                        assert(ts[0] == TokenV::GroupStart);
                        assert(ts.skip(1) =~= toks_entries(ves) + rest2);
                        assert(s1.has_stream(toks_entries(ves).add(rest2), tail));
                    }
                }
                Ok(entries)
            },
            got => {
                proof {
                    assert forall|
                        ves: Seq<(Seq<char>, ValueV)>,
                        rest2: Seq<TokenV>,
                        tail: Seq<char>,
                    |
                        entries_fit_dict(ves, sview(*vshape)) && entries_enc(ves) && (old(
                            self,
                        ).top_level ==> entries_ff(ves)) && rest2.len() > 0 && rest2[0]
                            == TokenV::GroupEnd && #[trigger] old(self).has_stream(
                            seq![TokenV::GroupStart].add(toks_entries(ves)).add(rest2),
                            tail,
                        ) implies false by {
                        let ts = seq![TokenV::GroupStart] + toks_entries(ves) + rest2;
                        assert(ts[0] == TokenV::GroupStart);
                        assert(ts.skip(1) =~= toks_entries(ves) + rest2);
                        assert(s1.has_stream(toks_entries(ves).add(rest2), tail));
                        assert(s2.has_stream(rest2, tail));
                        assert(got@ == rest2[0]);
                    }
                }
                proof {
                    assert forall|
                        ves: Seq<(Seq<char>, ValueV)>,
                        rest2: Seq<TokenV>,
                        tail: Seq<char>,
                    |
                        entries_fit_dict(ves, sview(*vshape)) && entries_enc(ves) && (old(
                            self,
                        ).top_level ==> entries_ff(ves)) && rest2.len() > 0 && rest2[0]
                            == TokenV::GroupStart && #[trigger] old(self).has_stream(
                            seq![TokenV::GroupStart].add(toks_entries(ves)).add(rest2),
                            tail,
                        ) implies false by {
                        let ts = seq![TokenV::GroupStart] + toks_entries(ves) + rest2;
                        assert(ts[0] == TokenV::GroupStart);
                        assert(ts.skip(1) =~= toks_entries(ves) + rest2);
                        assert(s1.has_stream(toks_entries(ves).add(rest2), tail));
                    }
                }
                Err(Error::Expected(String::from_str("'}'"), describe_token(&got)))
            },
        }
    }

    /// Decodes a named record: at the top of a document first consumes and
    /// checks the declared name, then reads the group like a map, directing
    /// each field's value by its declared shape.
    pub fn deserialize_struct(&mut self, name: &String, fields: &Vec<(String, Shape)>) -> (r:
        Result<Vec<(String, Value)>, Error>)
        ensures
            final(self).budget() <= old(self).budget(),
            forall|ves: Seq<(Seq<char>, ValueV)>, rest2: Seq<TokenV>, tail: Seq<char>|
                #![trigger old(self).has_stream(name_toks(old(self).top_level, name@).add(seq![TokenV::GroupStart]).add(toks_entries(ves)).add(rest2), tail)]
                entries_fit(ves, sfields(fields@)) && entries_enc(ves) && rest2.len() > 0
                    && rest2[0] == TokenV::GroupEnd && old(self).has_stream(
                    name_toks(old(self).top_level, name@) + seq![TokenV::GroupStart]
                        + toks_entries(ves) + rest2,
                    tail,
                ) ==> (r matches Ok(out) && ventries(out@) == ves && final(self).has_stream(
                    rest2.skip(1),
                    tail,
                ) && final(self).top_level == false),
            forall|pre: Seq<char>, s: Seq<char>, rest: Seq<char>|
                old(self).top_level && old(self).sq().len() == 0 && #[trigger] splits_item(
                    old(self).input@,
                    pre,
                    s,
                    rest,
                ) && s != name@ ==> (r matches Err(e) && e.deep_view() == ErrorV::Expected(
                    name@,
                    describe_token_spec(TokenV::Item(s)),
                )),
            forall|pre: Seq<char>, rest: Seq<char>|
                old(self).top_level && old(self).sq().len() == 0
                    && #[trigger] crate::text::splits_open(old(self).input@, pre, rest) ==> (r
                    matches Err(e) && e.deep_view() == ErrorV::Expected(
                    name@,
                    describe_token_spec(TokenV::GroupStart),
                )),
            forall|pre: Seq<char>, rest: Seq<char>|
                old(self).top_level && old(self).sq().len() == 0
                    && #[trigger] crate::text::splits_close(old(self).input@, pre, rest) ==> (r
                    matches Err(e) && e.deep_view() == ErrorV::Expected(
                    name@,
                    describe_token_spec(TokenV::GroupEnd),
                )),
            old(self).sq().len() == 0 && ws_only(old(self).input@) ==> (r matches Err(e)
                && e.deep_view() is EarlyEOF),
        decreases fsize(sfields(fields@)), 2int,
    {
        let ghost s0 = *self;
        if self.top_level {
            let t = match self.next_token() {
                Err(e) => {
                    proof {
                        struct_hyp_first(*old(self), name@, fields@);
                    }
                    return Err(e);
                },
                Ok(t) => t,
            };
            match t {
                Token::Item(s) => {
                    if s == *name {
                        self.top_level = false;
                    } else {
                        proof {
                            struct_hyp_first(*old(self), name@, fields@);
                        }
                        return Err(Error::Expected(
                            name.clone(),
                            describe_token(&Token::Item(s)),
                        ));
                    }
                },
                got => {
                    proof {
                        struct_hyp_first(*old(self), name@, fields@);
                    }
                    return Err(Error::Expected(name.clone(), describe_token(&got)));
                },
            }
        }
        let ghost s1 = *self;
        proof {
            assert forall|ves: Seq<(Seq<char>, ValueV)>, rest2: Seq<TokenV>, tail: Seq<char>|
                entries_fit(ves, sfields(fields@)) && entries_enc(ves) && rest2.len() > 0
                    && rest2[0] == TokenV::GroupEnd && #[trigger] old(self).has_stream(
                    name_toks(old(self).top_level, name@).add(seq![TokenV::GroupStart]).add(
                        toks_entries(ves),
                    ).add(rest2),
                    tail,
                ) implies s1.has_stream(
                seq![TokenV::GroupStart] + toks_entries(ves) + rest2,
                tail,
            ) && s1.top_level == false by {
                let ts = name_toks(old(self).top_level, name@) + seq![TokenV::GroupStart]
                    + toks_entries(ves) + rest2;
                if old(self).top_level {
                    assert(ts[0] == TokenV::Item(name@));
                    assert(ts.skip(1) =~= seq![TokenV::GroupStart] + toks_entries(ves) + rest2);
                } else {
                    assert(ts =~= seq![TokenV::GroupStart] + toks_entries(ves) + rest2);
                }
            }
        }
        let t1 = match self.next_token() {
            Err(e) => {
                return Err(e);
            },
            Ok(t1) => t1,
        };
        let ghost s1b = *self;
        proof {
            assert forall|ves: Seq<(Seq<char>, ValueV)>, rest2: Seq<TokenV>, tail: Seq<char>|
                entries_fit(ves, sfields(fields@)) && entries_enc(ves) && rest2.len() > 0
                    && rest2[0] == TokenV::GroupEnd && #[trigger] old(self).has_stream(
                    name_toks(old(self).top_level, name@).add(seq![TokenV::GroupStart]).add(
                        toks_entries(ves),
                    ).add(rest2),
                    tail,
                ) implies (t1@ == TokenV::GroupStart && s1b.has_stream(
                toks_entries(ves).add(rest2),
                tail,
            ) && s1b.top_level == false) by {
                let ts1 = seq![TokenV::GroupStart] + toks_entries(ves) + rest2;
                assert(s1.has_stream(ts1, tail));
                assert(ts1[0] == TokenV::GroupStart);
                assert(ts1.skip(1) =~= toks_entries(ves) + rest2);
            }
        }
        match t1 {
            Token::GroupStart => (),
            got => {
                return Err(Error::Expected(String::from_str("'{'"), describe_token(&got)));
            },
        }
        let entries = match self.record_entries(fields) {
            Err(e) => {
                return Err(e);
            },
            Ok(es) => es,
        };
        let ghost s2 = *self;
        proof {
            assert forall|ves: Seq<(Seq<char>, ValueV)>, rest2: Seq<TokenV>, tail: Seq<char>|
                entries_fit(ves, sfields(fields@)) && entries_enc(ves) && rest2.len() > 0
                    && rest2[0] == TokenV::GroupEnd && #[trigger] old(self).has_stream(
                    name_toks(old(self).top_level, name@).add(seq![TokenV::GroupStart]).add(
                        toks_entries(ves),
                    ).add(rest2),
                    tail,
                ) implies (ventries(entries@) == ves && s2.has_stream(rest2, tail)
                && s2.top_level == false) by {
                let ts1 = seq![TokenV::GroupStart] + toks_entries(ves) + rest2;
                assert(s1.has_stream(ts1, tail));
                assert(ts1[0] == TokenV::GroupStart);
                assert(ts1.skip(1) =~= toks_entries(ves) + rest2);
            }
        }
        let t2 = match self.next_token() {
            Err(e) => {
                return Err(e);
            },
            Ok(t2) => t2,
        };
        match t2 {
            Token::GroupEnd => Ok(entries),
            got => Err(Error::Expected(String::from_str("'}'"), describe_token(&got))),
        }
    }
}


impl Deserializer {
    /// Decodes one value of the given shape, dispatching exactly as the
    /// generic value-construction contract directs.
    #[verifier::rlimit(100)]
    pub fn decode_value(&mut self, shape: &Shape) -> (r: Result<Value, Error>)
        ensures
            final(self).budget() <= old(self).budget(),
            forall|vv: ValueV, rest_ts: Seq<TokenV>, tail: Seq<char>|
                #![trigger old(self).has_stream(toks_v(vv, old(self).top_level).add(rest_ts), tail)]
                fits(vv, sview(*shape)) && encodable(vv) && (old(self).top_level ==> top_ok(vv))
                    && old(self).has_stream(toks_v(vv, old(self).top_level) + rest_ts, tail) ==> (
                r matches Ok(out) && vview(out) == vv && final(self).has_stream(rest_ts, tail)
                    && final(self).top_level == (old(self).top_level && !uses_flag(vv))),
            forall|pre: Seq<char>, s: Seq<char>, rest: Seq<char>|
                old(self).top_level && old(self).sq().len() == 0 && #[trigger] splits_item(
                    old(self).input@,
                    pre,
                    s,
                    rest,
                ) && (top_name(sview(*shape)) matches Option::Some(n2) && s != n2) ==> (r matches
                Err(e) && e.deep_view() == ErrorV::Expected(
                    top_name(sview(*shape))->Some_0,
                    describe_token_spec(TokenV::Item(s)),
                )),
            forall|pre: Seq<char>, rest: Seq<char>|
                old(self).top_level && old(self).sq().len() == 0
                    && #[trigger] crate::text::splits_open(old(self).input@, pre, rest)
                    && top_name(sview(*shape)) is Some ==> (r matches Err(e) && e.deep_view()
                    == ErrorV::Expected(
                    top_name(sview(*shape))->Some_0,
                    describe_token_spec(TokenV::GroupStart),
                )),
            forall|pre: Seq<char>, rest: Seq<char>|
                old(self).top_level && old(self).sq().len() == 0
                    && #[trigger] crate::text::splits_close(old(self).input@, pre, rest)
                    && top_name(sview(*shape)) is Some ==> (r matches Err(e) && e.deep_view()
                    == ErrorV::Expected(
                    top_name(sview(*shape))->Some_0,
                    describe_token_spec(TokenV::GroupEnd),
                )),
            old(self).sq().len() == 0 && ws_only(old(self).input@) ==> (r matches Err(e)
                && e.deep_view() is EarlyEOF),
            forall|n2: Seq<char>, vv: ValueV, rest_ts: Seq<TokenV>, tail: Seq<char>|
                #![trigger old(self).has_stream(seq![TokenV::Item(n2)].add(toks_v(vv, false)).add(rest_ts), tail)]
                (sview(*shape) matches ShapeV::Newtype(n2b, inner) && n2b == n2 && old(
                    self,
                ).top_level && fits(vv, *inner) && encodable(vv) && old(self).has_stream(
                    seq![TokenV::Item(n2)] + toks_v(vv, false) + rest_ts,
                    tail,
                )) ==> (r matches Ok(out) && vview(out) == ValueV::Newtype(n2, Box::new(vv))
                    && final(self).has_stream(rest_ts, tail) && final(self).top_level == false),
        decreases ssize(sview(*shape)), 0int,
    {
        let ghost s0 = *self;
        match shape {
            Shape::Bool => {
                match self.deserialize_bool() {
                    Err(e) => {
                        proof {
                            assert forall|vv: ValueV, rest_ts: Seq<TokenV>, tail: Seq<char>|
                                fits(vv, sview(*shape)) && encodable(vv) && (s0.top_level
                                    ==> top_ok(vv)) && #[trigger] s0.has_stream(
                                    toks_v(vv, s0.top_level).add(rest_ts),
                                    tail,
                                ) implies false by {
                                let ts = toks_v(vv, s0.top_level) + rest_ts;
                                assert(ts[0] == TokenV::Item(scalar_item(vv)));
                            }
                        }
                        Err(e)
                    },
                    Ok(b) => {
                        let out = Value::Bool(b);
                        proof {
                            assert forall|vv: ValueV, rest_ts: Seq<TokenV>, tail: Seq<char>|
                                fits(vv, sview(*shape)) && encodable(vv) && (s0.top_level
                                    ==> top_ok(vv)) && #[trigger] s0.has_stream(
                                    toks_v(vv, s0.top_level).add(rest_ts),
                                    tail,
                                ) implies (vview(out) == vv && self.has_stream(rest_ts, tail)
                                && self.top_level == (s0.top_level && !uses_flag(vv))) by {
                                let ts = toks_v(vv, s0.top_level) + rest_ts;
                                assert(ts[0] == TokenV::Item(scalar_item(vv)));
                                assert(ts.skip(1) =~= rest_ts);
                            }
                        }
                        Ok(out)
                    },
                }
            },
            Shape::I8 => {
                match self.deserialize_i8() {
                    Err(e) => {
                        proof {
                            assert forall|vv: ValueV, rest_ts: Seq<TokenV>, tail: Seq<char>|
                                fits(vv, sview(*shape)) && encodable(vv) && (s0.top_level
                                    ==> top_ok(vv)) && #[trigger] s0.has_stream(
                                    toks_v(vv, s0.top_level).add(rest_ts),
                                    tail,
                                ) implies false by {
                                let ts = toks_v(vv, s0.top_level) + rest_ts;
                                assert(ts[0] == TokenV::Item(scalar_item(vv)));
                                match vv {
                                    ValueV::I8(n) => {
                                        crate::num::lemma_int_text(n as int);
                                    },
                                    ValueV::I16(n) => {
                                        crate::num::lemma_int_text(n as int);
                                    },
                                    ValueV::I32(n) => {
                                        crate::num::lemma_int_text(n as int);
                                    },
                                    ValueV::I64(n) => {
                                        crate::num::lemma_int_text(n as int);
                                    },
                                    ValueV::U8(n) => {
                                        crate::num::lemma_int_text(n as int);
                                    },
                                    ValueV::U16(n) => {
                                        crate::num::lemma_int_text(n as int);
                                    },
                                    ValueV::U32(n) => {
                                        crate::num::lemma_int_text(n as int);
                                    },
                                    ValueV::U64(n) => {
                                        crate::num::lemma_int_text(n as int);
                                    },
                                    _ => {},
                                }
                            }
                        }
                        Err(e)
                    },
                    Ok(n) => {
                        let out = Value::I8(n);
                        proof {
                            assert forall|vv: ValueV, rest_ts: Seq<TokenV>, tail: Seq<char>|
                                fits(vv, sview(*shape)) && encodable(vv) && (s0.top_level
                                    ==> top_ok(vv)) && #[trigger] s0.has_stream(
                                    toks_v(vv, s0.top_level).add(rest_ts),
                                    tail,
                                ) implies (vview(out) == vv && self.has_stream(rest_ts, tail)
                                && self.top_level == (s0.top_level && !uses_flag(vv))) by {
                                let ts = toks_v(vv, s0.top_level) + rest_ts;
                                assert(ts[0] == TokenV::Item(scalar_item(vv)));
                                assert(ts.skip(1) =~= rest_ts);
                                crate::num::lemma_int_text(vv->I8_0 as int);
                            }
                        }
                        Ok(out)
                    },
                }
            },
            Shape::I16 => {
                match self.deserialize_i16() {
                    Err(e) => {
                        proof {
                            assert forall|vv: ValueV, rest_ts: Seq<TokenV>, tail: Seq<char>|
                                fits(vv, sview(*shape)) && encodable(vv) && (s0.top_level
                                    ==> top_ok(vv)) && #[trigger] s0.has_stream(
                                    toks_v(vv, s0.top_level).add(rest_ts),
                                    tail,
                                ) implies false by {
                                let ts = toks_v(vv, s0.top_level) + rest_ts;
                                assert(ts[0] == TokenV::Item(scalar_item(vv)));
                                match vv {
                                    ValueV::I8(n) => {
                                        crate::num::lemma_int_text(n as int);
                                    },
                                    ValueV::I16(n) => {
                                        crate::num::lemma_int_text(n as int);
                                    },
                                    ValueV::I32(n) => {
                                        crate::num::lemma_int_text(n as int);
                                    },
                                    ValueV::I64(n) => {
                                        crate::num::lemma_int_text(n as int);
                                    },
                                    ValueV::U8(n) => {
                                        crate::num::lemma_int_text(n as int);
                                    },
                                    ValueV::U16(n) => {
                                        crate::num::lemma_int_text(n as int);
                                    },
                                    ValueV::U32(n) => {
                                        crate::num::lemma_int_text(n as int);
                                    },
                                    ValueV::U64(n) => {
                                        crate::num::lemma_int_text(n as int);
                                    },
                                    _ => {},
                                }
                            }
                        }
                        Err(e)
                    },
                    Ok(n) => {
                        let out = Value::I16(n);
                        proof {
                            assert forall|vv: ValueV, rest_ts: Seq<TokenV>, tail: Seq<char>|
                                fits(vv, sview(*shape)) && encodable(vv) && (s0.top_level
                                    ==> top_ok(vv)) && #[trigger] s0.has_stream(
                                    toks_v(vv, s0.top_level).add(rest_ts),
                                    tail,
                                ) implies (vview(out) == vv && self.has_stream(rest_ts, tail)
                                && self.top_level == (s0.top_level && !uses_flag(vv))) by {
                                let ts = toks_v(vv, s0.top_level) + rest_ts;
                                assert(ts[0] == TokenV::Item(scalar_item(vv)));
                                assert(ts.skip(1) =~= rest_ts);
                                crate::num::lemma_int_text(vv->I16_0 as int);
                            }
                        }
                        Ok(out)
                    },
                }
            },
            Shape::I32 => {
                match self.deserialize_i32() {
                    Err(e) => {
                        proof {
                            assert forall|vv: ValueV, rest_ts: Seq<TokenV>, tail: Seq<char>|
                                fits(vv, sview(*shape)) && encodable(vv) && (s0.top_level
                                    ==> top_ok(vv)) && #[trigger] s0.has_stream(
                                    toks_v(vv, s0.top_level).add(rest_ts),
                                    tail,
                                ) implies false by {
                                let ts = toks_v(vv, s0.top_level) + rest_ts;
                                assert(ts[0] == TokenV::Item(scalar_item(vv)));
                                match vv {
                                    ValueV::I8(n) => {
                                        crate::num::lemma_int_text(n as int);
                                    },
                                    ValueV::I16(n) => {
                                        crate::num::lemma_int_text(n as int);
                                    },
                                    ValueV::I32(n) => {
                                        crate::num::lemma_int_text(n as int);
                                    },
                                    ValueV::I64(n) => {
                                        crate::num::lemma_int_text(n as int);
                                    },
                                    ValueV::U8(n) => {
                                        crate::num::lemma_int_text(n as int);
                                    },
                                    ValueV::U16(n) => {
                                        crate::num::lemma_int_text(n as int);
                                    },
                                    ValueV::U32(n) => {
                                        crate::num::lemma_int_text(n as int);
                                    },
                                    ValueV::U64(n) => {
                                        crate::num::lemma_int_text(n as int);
                                    },
                                    _ => {},
                                }
                            }
                        }
                        Err(e)
                    },
                    Ok(n) => {
                        let out = Value::I32(n);
                        proof {
                            assert forall|vv: ValueV, rest_ts: Seq<TokenV>, tail: Seq<char>|
                                fits(vv, sview(*shape)) && encodable(vv) && (s0.top_level
                                    ==> top_ok(vv)) && #[trigger] s0.has_stream(
                                    toks_v(vv, s0.top_level).add(rest_ts),
                                    tail,
                                ) implies (vview(out) == vv && self.has_stream(rest_ts, tail)
                                && self.top_level == (s0.top_level && !uses_flag(vv))) by {
                                let ts = toks_v(vv, s0.top_level) + rest_ts;
                                assert(ts[0] == TokenV::Item(scalar_item(vv)));
                                assert(ts.skip(1) =~= rest_ts);
                                crate::num::lemma_int_text(vv->I32_0 as int);
                            }
                        }
                        Ok(out)
                    },
                }
            },
            Shape::I64 => {
                match self.deserialize_i64() {
                    Err(e) => {
                        proof {
                            assert forall|vv: ValueV, rest_ts: Seq<TokenV>, tail: Seq<char>|
                                fits(vv, sview(*shape)) && encodable(vv) && (s0.top_level
                                    ==> top_ok(vv)) && #[trigger] s0.has_stream(
                                    toks_v(vv, s0.top_level).add(rest_ts),
                                    tail,
                                ) implies false by {
                                let ts = toks_v(vv, s0.top_level) + rest_ts;
                                assert(ts[0] == TokenV::Item(scalar_item(vv)));
                                match vv {
                                    ValueV::I8(n) => {
                                        crate::num::lemma_int_text(n as int);
                                    },
                                    ValueV::I16(n) => {
                                        crate::num::lemma_int_text(n as int);
                                    },
                                    ValueV::I32(n) => {
                                        crate::num::lemma_int_text(n as int);
                                    },
                                    ValueV::I64(n) => {
                                        crate::num::lemma_int_text(n as int);
                                    },
                                    ValueV::U8(n) => {
                                        crate::num::lemma_int_text(n as int);
                                    },
                                    ValueV::U16(n) => {
                                        crate::num::lemma_int_text(n as int);
                                    },
                                    ValueV::U32(n) => {
                                        crate::num::lemma_int_text(n as int);
                                    },
                                    ValueV::U64(n) => {
                                        crate::num::lemma_int_text(n as int);
                                    },
                                    _ => {},
                                }
                            }
                        }
                        Err(e)
                    },
                    Ok(n) => {
                        let out = Value::I64(n);
                        proof {
                            assert forall|vv: ValueV, rest_ts: Seq<TokenV>, tail: Seq<char>|
                                fits(vv, sview(*shape)) && encodable(vv) && (s0.top_level
                                    ==> top_ok(vv)) && #[trigger] s0.has_stream(
                                    toks_v(vv, s0.top_level).add(rest_ts),
                                    tail,
                                ) implies (vview(out) == vv && self.has_stream(rest_ts, tail)
                                && self.top_level == (s0.top_level && !uses_flag(vv))) by {
                                let ts = toks_v(vv, s0.top_level) + rest_ts;
                                assert(ts[0] == TokenV::Item(scalar_item(vv)));
                                assert(ts.skip(1) =~= rest_ts);
                                crate::num::lemma_int_text(vv->I64_0 as int);
                            }
                        }
                        Ok(out)
                    },
                }
            },
            Shape::U8 => {
                match self.deserialize_u8() {
                    Err(e) => {
                        proof {
                            assert forall|vv: ValueV, rest_ts: Seq<TokenV>, tail: Seq<char>|
                                fits(vv, sview(*shape)) && encodable(vv) && (s0.top_level
                                    ==> top_ok(vv)) && #[trigger] s0.has_stream(
                                    toks_v(vv, s0.top_level).add(rest_ts),
                                    tail,
                                ) implies false by {
                                let ts = toks_v(vv, s0.top_level) + rest_ts;
                                assert(ts[0] == TokenV::Item(scalar_item(vv)));
                                match vv {
                                    ValueV::I8(n) => {
                                        crate::num::lemma_int_text(n as int);
                                    },
                                    ValueV::I16(n) => {
                                        crate::num::lemma_int_text(n as int);
                                    },
                                    ValueV::I32(n) => {
                                        crate::num::lemma_int_text(n as int);
                                    },
                                    ValueV::I64(n) => {
                                        crate::num::lemma_int_text(n as int);
                                    },
                                    ValueV::U8(n) => {
                                        crate::num::lemma_int_text(n as int);
                                    },
                                    ValueV::U16(n) => {
                                        crate::num::lemma_int_text(n as int);
                                    },
                                    ValueV::U32(n) => {
                                        crate::num::lemma_int_text(n as int);
                                    },
                                    ValueV::U64(n) => {
                                        crate::num::lemma_int_text(n as int);
                                    },
                                    _ => {},
                                }
                            }
                        }
                        Err(e)
                    },
                    Ok(n) => {
                        let out = Value::U8(n);
                        proof {
                            assert forall|vv: ValueV, rest_ts: Seq<TokenV>, tail: Seq<char>|
                                fits(vv, sview(*shape)) && encodable(vv) && (s0.top_level
                                    ==> top_ok(vv)) && #[trigger] s0.has_stream(
                                    toks_v(vv, s0.top_level).add(rest_ts),
                                    tail,
                                ) implies (vview(out) == vv && self.has_stream(rest_ts, tail)
                                && self.top_level == (s0.top_level && !uses_flag(vv))) by {
                                let ts = toks_v(vv, s0.top_level) + rest_ts;
                                assert(ts[0] == TokenV::Item(scalar_item(vv)));
                                assert(ts.skip(1) =~= rest_ts);
                                crate::num::lemma_int_text(vv->U8_0 as int);
                            }
                        }
                        Ok(out)
                    },
                }
            },
            Shape::U16 => {
                match self.deserialize_u16() {
                    Err(e) => {
                        proof {
                            assert forall|vv: ValueV, rest_ts: Seq<TokenV>, tail: Seq<char>|
                                fits(vv, sview(*shape)) && encodable(vv) && (s0.top_level
                                    ==> top_ok(vv)) && #[trigger] s0.has_stream(
                                    toks_v(vv, s0.top_level).add(rest_ts),
                                    tail,
                                ) implies false by {
                                let ts = toks_v(vv, s0.top_level) + rest_ts;
                                assert(ts[0] == TokenV::Item(scalar_item(vv)));
                                match vv {
                                    ValueV::I8(n) => {
                                        crate::num::lemma_int_text(n as int);
                                    },
                                    ValueV::I16(n) => {
                                        crate::num::lemma_int_text(n as int);
                                    },
                                    ValueV::I32(n) => {
                                        crate::num::lemma_int_text(n as int);
                                    },
                                    ValueV::I64(n) => {
                                        crate::num::lemma_int_text(n as int);
                                    },
                                    ValueV::U8(n) => {
                                        crate::num::lemma_int_text(n as int);
                                    },
                                    ValueV::U16(n) => {
                                        crate::num::lemma_int_text(n as int);
                                    },
                                    ValueV::U32(n) => {
                                        crate::num::lemma_int_text(n as int);
                                    },
                                    ValueV::U64(n) => {
                                        crate::num::lemma_int_text(n as int);
                                    },
                                    _ => {},
                                }
                            }
                        }
                        Err(e)
                    },
                    Ok(n) => {
                        let out = Value::U16(n);
                        proof {
                            assert forall|vv: ValueV, rest_ts: Seq<TokenV>, tail: Seq<char>|
                                fits(vv, sview(*shape)) && encodable(vv) && (s0.top_level
                                    ==> top_ok(vv)) && #[trigger] s0.has_stream(
                                    toks_v(vv, s0.top_level).add(rest_ts),
                                    tail,
                                ) implies (vview(out) == vv && self.has_stream(rest_ts, tail)
                                && self.top_level == (s0.top_level && !uses_flag(vv))) by {
                                let ts = toks_v(vv, s0.top_level) + rest_ts;
                                assert(ts[0] == TokenV::Item(scalar_item(vv)));
                                assert(ts.skip(1) =~= rest_ts);
                                crate::num::lemma_int_text(vv->U16_0 as int);
                            }
                        }
                        Ok(out)
                    },
                }
            },
            Shape::U32 => {
                match self.deserialize_u32() {
                    Err(e) => {
                        proof {
                            assert forall|vv: ValueV, rest_ts: Seq<TokenV>, tail: Seq<char>|
                                fits(vv, sview(*shape)) && encodable(vv) && (s0.top_level
                                    ==> top_ok(vv)) && #[trigger] s0.has_stream(
                                    toks_v(vv, s0.top_level).add(rest_ts),
                                    tail,
                                ) implies false by {
                                let ts = toks_v(vv, s0.top_level) + rest_ts;
                                assert(ts[0] == TokenV::Item(scalar_item(vv)));
                                match vv {
                                    ValueV::I8(n) => {
                                        crate::num::lemma_int_text(n as int);
                                    },
                                    ValueV::I16(n) => {
                                        crate::num::lemma_int_text(n as int);
                                    },
                                    ValueV::I32(n) => {
                                        crate::num::lemma_int_text(n as int);
                                    },
                                    ValueV::I64(n) => {
                                        crate::num::lemma_int_text(n as int);
                                    },
                                    ValueV::U8(n) => {
                                        crate::num::lemma_int_text(n as int);
                                    },
                                    ValueV::U16(n) => {
                                        crate::num::lemma_int_text(n as int);
                                    },
                                    ValueV::U32(n) => {
                                        crate::num::lemma_int_text(n as int);
                                    },
                                    ValueV::U64(n) => {
                                        crate::num::lemma_int_text(n as int);
                                    },
                                    _ => {},
                                }
                            }
                        }
                        Err(e)
                    },
                    Ok(n) => {
                        let out = Value::U32(n);
                        proof {
                            assert forall|vv: ValueV, rest_ts: Seq<TokenV>, tail: Seq<char>|
                                fits(vv, sview(*shape)) && encodable(vv) && (s0.top_level
                                    ==> top_ok(vv)) && #[trigger] s0.has_stream(
                                    toks_v(vv, s0.top_level).add(rest_ts),
                                    tail,
                                ) implies (vview(out) == vv && self.has_stream(rest_ts, tail)
                                && self.top_level == (s0.top_level && !uses_flag(vv))) by {
                                let ts = toks_v(vv, s0.top_level) + rest_ts;
                                assert(ts[0] == TokenV::Item(scalar_item(vv)));
                                assert(ts.skip(1) =~= rest_ts);
                                crate::num::lemma_int_text(vv->U32_0 as int);
                            }
                        }
                        Ok(out)
                    },
                }
            },
            Shape::U64 => {
                match self.deserialize_u64() {
                    Err(e) => {
                        proof {
                            assert forall|vv: ValueV, rest_ts: Seq<TokenV>, tail: Seq<char>|
                                fits(vv, sview(*shape)) && encodable(vv) && (s0.top_level
                                    ==> top_ok(vv)) && #[trigger] s0.has_stream(
                                    toks_v(vv, s0.top_level).add(rest_ts),
                                    tail,
                                ) implies false by {
                                let ts = toks_v(vv, s0.top_level) + rest_ts;
                                assert(ts[0] == TokenV::Item(scalar_item(vv)));
                                match vv {
                                    ValueV::I8(n) => {
                                        crate::num::lemma_int_text(n as int);
                                    },
                                    ValueV::I16(n) => {
                                        crate::num::lemma_int_text(n as int);
                                    },
                                    ValueV::I32(n) => {
                                        crate::num::lemma_int_text(n as int);
                                    },
                                    ValueV::I64(n) => {
                                        crate::num::lemma_int_text(n as int);
                                    },
                                    ValueV::U8(n) => {
                                        crate::num::lemma_int_text(n as int);
                                    },
                                    ValueV::U16(n) => {
                                        crate::num::lemma_int_text(n as int);
                                    },
                                    ValueV::U32(n) => {
                                        crate::num::lemma_int_text(n as int);
                                    },
                                    ValueV::U64(n) => {
                                        crate::num::lemma_int_text(n as int);
                                    },
                                    _ => {},
                                }
                            }
                        }
                        Err(e)
                    },
                    Ok(n) => {
                        let out = Value::U64(n);
                        proof {
                            assert forall|vv: ValueV, rest_ts: Seq<TokenV>, tail: Seq<char>|
                                fits(vv, sview(*shape)) && encodable(vv) && (s0.top_level
                                    ==> top_ok(vv)) && #[trigger] s0.has_stream(
                                    toks_v(vv, s0.top_level).add(rest_ts),
                                    tail,
                                ) implies (vview(out) == vv && self.has_stream(rest_ts, tail)
                                && self.top_level == (s0.top_level && !uses_flag(vv))) by {
                                let ts = toks_v(vv, s0.top_level) + rest_ts;
                                assert(ts[0] == TokenV::Item(scalar_item(vv)));
                                assert(ts.skip(1) =~= rest_ts);
                                crate::num::lemma_int_text(vv->U64_0 as int);
                            }
                        }
                        Ok(out)
                    },
                }
            },
            Shape::Chr => {
                match self.deserialize_char() {
                    Err(e) => {
                        proof {
                            assert forall|vv: ValueV, rest_ts: Seq<TokenV>, tail: Seq<char>|
                                fits(vv, sview(*shape)) && encodable(vv) && (s0.top_level
                                    ==> top_ok(vv)) && #[trigger] s0.has_stream(
                                    toks_v(vv, s0.top_level).add(rest_ts),
                                    tail,
                                ) implies false by {
                                let ts = toks_v(vv, s0.top_level) + rest_ts;
                                assert(ts[0] == TokenV::Item(scalar_item(vv)));
                            }
                        }
                        Err(e)
                    },
                    Ok(c) => {
                        let out = Value::Chr(c);
                        proof {
                            assert forall|vv: ValueV, rest_ts: Seq<TokenV>, tail: Seq<char>|
                                fits(vv, sview(*shape)) && encodable(vv) && (s0.top_level
                                    ==> top_ok(vv)) && #[trigger] s0.has_stream(
                                    toks_v(vv, s0.top_level).add(rest_ts),
                                    tail,
                                ) implies (vview(out) == vv && self.has_stream(rest_ts, tail)
                                && self.top_level == (s0.top_level && !uses_flag(vv))) by {
                                let ts = toks_v(vv, s0.top_level) + rest_ts;
                                assert(ts[0] == TokenV::Item(scalar_item(vv)));
                                assert(ts.skip(1) =~= rest_ts);
                                assert(scalar_item(vv) =~= seq![vv->Chr_0]);
                            }
                        }
                        Ok(out)
                    },
                }
            },
            Shape::Str => {
                match self.deserialize_string() {
                    Err(e) => {
                        proof {
                            assert forall|vv: ValueV, rest_ts: Seq<TokenV>, tail: Seq<char>|
                                fits(vv, sview(*shape)) && encodable(vv) && (s0.top_level
                                    ==> top_ok(vv)) && #[trigger] s0.has_stream(
                                    toks_v(vv, s0.top_level).add(rest_ts),
                                    tail,
                                ) implies false by {
                                let ts = toks_v(vv, s0.top_level) + rest_ts;
                                assert(ts[0] == TokenV::Item(scalar_item(vv)));
                            }
                        }
                        Err(e)
                    },
                    Ok(st) => {
                        let out = Value::Str(st);
                        proof {
                            assert forall|vv: ValueV, rest_ts: Seq<TokenV>, tail: Seq<char>|
                                fits(vv, sview(*shape)) && encodable(vv) && (s0.top_level
                                    ==> top_ok(vv)) && #[trigger] s0.has_stream(
                                    toks_v(vv, s0.top_level).add(rest_ts),
                                    tail,
                                ) implies (vview(out) == vv && self.has_stream(rest_ts, tail)
                                && self.top_level == (s0.top_level && !uses_flag(vv))) by {
                                let ts = toks_v(vv, s0.top_level) + rest_ts;
                                assert(ts[0] == TokenV::Item(scalar_item(vv)));
                                assert(ts.skip(1) =~= rest_ts);
                            }
                        }
                        Ok(out)
                    },
                }
            },
            Shape::Tag(ns) => {
                match self.deserialize_enum(ns) {
                    Err(e) => {
                        proof {
                            assert forall|vv: ValueV, rest_ts: Seq<TokenV>, tail: Seq<char>|
                                fits(vv, sview(*shape)) && encodable(vv) && (s0.top_level
                                    ==> top_ok(vv)) && #[trigger] s0.has_stream(
                                    toks_v(vv, s0.top_level).add(rest_ts),
                                    tail,
                                ) implies false by {
                                let ts = toks_v(vv, s0.top_level) + rest_ts;
                                assert(ts[0] == TokenV::Item(scalar_item(vv)));
                                if vv is Tag {
                                    let tv = vv->Tag_0;
                                    let names = sview(*shape)->Tag_0;
                                    let i = choose|i: int|
                                        0 <= i < names.len() && names[i] == tv;
                                    assert(names[i] == ns@[i]@);
                                    assert(exists|k: int|
                                        0 <= k < ns@.len() && #[trigger] ns@[k]@ == tv);
                                }
                            }
                        }
                        Err(e)
                    },
                    Ok(tg) => {
                        let out = Value::Tag(tg);
                        proof {
                            assert forall|vv: ValueV, rest_ts: Seq<TokenV>, tail: Seq<char>|
                                fits(vv, sview(*shape)) && encodable(vv) && (s0.top_level
                                    ==> top_ok(vv)) && #[trigger] s0.has_stream(
                                    toks_v(vv, s0.top_level).add(rest_ts),
                                    tail,
                                ) implies (vview(out) == vv && self.has_stream(rest_ts, tail)
                                && self.top_level == (s0.top_level && !uses_flag(vv))) by {
                                let ts = toks_v(vv, s0.top_level) + rest_ts;
                                assert(ts[0] == TokenV::Item(scalar_item(vv)));
                                assert(ts.skip(1) =~= rest_ts);
                                let tv = vv->Tag_0;
                                let names = sview(*shape)->Tag_0;
                                let i = choose|i: int| 0 <= i < names.len() && names[i] == tv;
                                assert(names[i] == ns@[i]@);
                                assert(exists|k: int|
                                    0 <= k < ns@.len() && #[trigger] ns@[k]@ == tv);
                            }
                        }
                        Ok(out)
                    },
                }
            },
            Shape::Opt(inner) => {
                match self.decode_value(inner) {
                    Err(e) => {
                        proof {
                            assert forall|vv: ValueV, rest_ts: Seq<TokenV>, tail: Seq<char>|
                                fits(vv, sview(*shape)) && encodable(vv) && (s0.top_level
                                    ==> top_ok(vv)) && #[trigger] s0.has_stream(
                                    toks_v(vv, s0.top_level).add(rest_ts),
                                    tail,
                                ) implies false by {
                                let xv = *vv->Opt_0;
                                assert(toks_v(vv, s0.top_level) == toks_v(xv, s0.top_level));
                                assert(s0.has_stream(
                                    toks_v(xv, s0.top_level).add(rest_ts),
                                    tail,
                                ));
                            }
                        }
                        Err(e)
                    },
                    Ok(x) => {
                        let out = Value::Opt(Box::new(x));
                        proof {
                            assert forall|vv: ValueV, rest_ts: Seq<TokenV>, tail: Seq<char>|
                                fits(vv, sview(*shape)) && encodable(vv) && (s0.top_level
                                    ==> top_ok(vv)) && #[trigger] s0.has_stream(
                                    toks_v(vv, s0.top_level).add(rest_ts),
                                    tail,
                                ) implies (vview(out) == vv && self.has_stream(rest_ts, tail)
                                && self.top_level == (s0.top_level && !uses_flag(vv))) by {
                                let xv = *vv->Opt_0;
                                assert(toks_v(vv, s0.top_level) == toks_v(xv, s0.top_level));
                                assert(s0.has_stream(
                                    toks_v(xv, s0.top_level).add(rest_ts),
                                    tail,
                                ));
                            }
                        }
                        Ok(out)
                    },
                }
            },
            Shape::Newtype(name, inner) => {
                if self.top_level {
                    let t = match self.next_token() {
                        Err(e) => {
                            proof {
                                newtype_top_vacuous(s0, sview(*shape));
                            }
                        proof {
                            assert forall|
                                n2: Seq<char>,
                                vv: ValueV,
                                rest_ts: Seq<TokenV>,
                                tail: Seq<char>,
                            |
                    (sview(*shape) matches ShapeV::Newtype(n2b, inner2) && n2b == n2 && s0.top_level
                        && fits(vv, *inner2) && encodable(vv) && #[trigger] s0.has_stream(
                        seq![TokenV::Item(n2)].add(toks_v(vv, false)).add(rest_ts),
                        tail,
                    )) implies false by {
                                let ts = seq![TokenV::Item(n2)] + toks_v(vv, false) + rest_ts;
                                assert(ts.len() > 0);
                                assert(ts[0] == TokenV::Item(n2));
                            }
                        }
                            return Err(e);
                        },
                        Ok(t) => t,
                    };
                    match t {
                        Token::Item(s) => {
                            if s == *name {
                                self.top_level = false;
                            } else {
                                proof {
                                    newtype_top_vacuous(s0, sview(*shape));
                                }
                        proof {
                            assert forall|
                                n2: Seq<char>,
                                vv: ValueV,
                                rest_ts: Seq<TokenV>,
                                tail: Seq<char>,
                            |
                    (sview(*shape) matches ShapeV::Newtype(n2b, inner2) && n2b == n2 && s0.top_level
                        && fits(vv, *inner2) && encodable(vv) && #[trigger] s0.has_stream(
                        seq![TokenV::Item(n2)].add(toks_v(vv, false)).add(rest_ts),
                        tail,
                    )) implies false by {
                                let ts = seq![TokenV::Item(n2)] + toks_v(vv, false) + rest_ts;
                                assert(ts.len() > 0);
                                assert(ts[0] == TokenV::Item(n2));
                            }
                        }
                                return Err(Error::Expected(
                                    name.clone(),
                                    describe_token(&Token::Item(s)),
                                ));
                            }
                        },
                        got => {
                            proof {
                                newtype_top_vacuous(s0, sview(*shape));
                            }
                        proof {
                            assert forall|
                                n2: Seq<char>,
                                vv: ValueV,
                                rest_ts: Seq<TokenV>,
                                tail: Seq<char>,
                            |
                    (sview(*shape) matches ShapeV::Newtype(n2b, inner2) && n2b == n2 && s0.top_level
                        && fits(vv, *inner2) && encodable(vv) && #[trigger] s0.has_stream(
                        seq![TokenV::Item(n2)].add(toks_v(vv, false)).add(rest_ts),
                        tail,
                    )) implies false by {
                                let ts = seq![TokenV::Item(n2)] + toks_v(vv, false) + rest_ts;
                                assert(ts.len() > 0);
                                assert(ts[0] == TokenV::Item(n2));
                            }
                        }
                            return Err(Error::Expected(name.clone(), describe_token(&got)));
                        },
                    }
                }
                let ghost s_in = *self;
                match self.decode_value(inner) {
                    Err(e) => {
                        proof {
                            assert forall|vv: ValueV, rest_ts: Seq<TokenV>, tail: Seq<char>|
                                fits(vv, sview(*shape)) && encodable(vv) && (s0.top_level
                                    ==> top_ok(vv)) && #[trigger] s0.has_stream(
                                    toks_v(vv, s0.top_level).add(rest_ts),
                                    tail,
                                ) implies false by {
                                let xv = *vv->Newtype_1;
                                assert(!s0.top_level);
                                assert(toks_v(vv, false) == toks_v(xv, false));
                                assert(s0.has_stream(toks_v(xv, false).add(rest_ts), tail));
                            }
                            assert forall|
                                n2: Seq<char>,
                                vv: ValueV,
                                rest_ts: Seq<TokenV>,
                                tail: Seq<char>,
                            |
                    (sview(*shape) matches ShapeV::Newtype(n2b, inner2) && n2b == n2 && s0.top_level
                        && fits(vv, *inner2) && encodable(vv) && #[trigger] s0.has_stream(
                        seq![TokenV::Item(n2)].add(toks_v(vv, false)).add(rest_ts),
                        tail,
                    )) implies false by {
                                let ts = seq![TokenV::Item(n2)] + toks_v(vv, false) + rest_ts;
                                assert(ts.len() > 0);
                                assert(ts[0] == TokenV::Item(n2));
                                assert(ts.skip(1) =~= toks_v(vv, false) + rest_ts);
                                assert(s_in.has_stream(toks_v(vv, false).add(rest_ts), tail));
                                assert(!s_in.top_level);
                                assert(toks_v(vv, s_in.top_level) == toks_v(vv, false));
                            }
                        }
                        Err(e)
                    },
                    Ok(x) => {
                        let out = Value::Newtype(name.clone(), Box::new(x));
                        proof {
                            assert forall|vv: ValueV, rest_ts: Seq<TokenV>, tail: Seq<char>|
                                fits(vv, sview(*shape)) && encodable(vv) && (s0.top_level
                                    ==> top_ok(vv)) && #[trigger] s0.has_stream(
                                    toks_v(vv, s0.top_level).add(rest_ts),
                                    tail,
                                ) implies (vview(out) == vv && self.has_stream(rest_ts, tail)
                                && self.top_level == (s0.top_level && !uses_flag(vv))) by {
                                let xv = *vv->Newtype_1;
                                assert(!s0.top_level);
                                assert(toks_v(vv, false) == toks_v(xv, false));
                                assert(s0.has_stream(toks_v(xv, false).add(rest_ts), tail));
                            }
                            assert forall|
                                n2: Seq<char>,
                                vv: ValueV,
                                rest_ts: Seq<TokenV>,
                                tail: Seq<char>,
                            |
                    (sview(*shape) matches ShapeV::Newtype(n2b, inner2) && n2b == n2 && s0.top_level
                        && fits(vv, *inner2) && encodable(vv) && #[trigger] s0.has_stream(
                        seq![TokenV::Item(n2)].add(toks_v(vv, false)).add(rest_ts),
                        tail,
                    )) implies (vview(out) == ValueV::Newtype(n2, Box::new(vv))
                                && self.has_stream(rest_ts, tail) && self.top_level
                                == false) by {
                                let ts = seq![TokenV::Item(n2)] + toks_v(vv, false) + rest_ts;
                                assert(ts.len() > 0);
                                assert(ts[0] == TokenV::Item(n2));
                                assert(ts.skip(1) =~= toks_v(vv, false) + rest_ts);
                                assert(s_in.has_stream(toks_v(vv, false).add(rest_ts), tail));
                                assert(!s_in.top_level);
                                assert(toks_v(vv, s_in.top_level) == toks_v(vv, false));
                                assert(vview(x) == vv);
                            }
                        }
                        Ok(out)
                    },
                }
            },
            Shape::Record(name, fields) => {
                match self.deserialize_struct(name, fields) {
                    Err(e) => {
                        proof {
                            assert forall|vv: ValueV, rest_ts: Seq<TokenV>, tail: Seq<char>|
                                fits(vv, sview(*shape)) && encodable(vv) && (s0.top_level
                                    ==> top_ok(vv)) && #[trigger] s0.has_stream(
                                    toks_v(vv, s0.top_level).add(rest_ts),
                                    tail,
                                ) implies false by {
                                record_hyp_bridge(s0, vv, name@, rest_ts, tail);
                            }
                        }
                        Err(e)
                    },
                    Ok(es2) => {
                        let out = Value::Record(name.clone(), es2);
                        proof {
                            assert forall|vv: ValueV, rest_ts: Seq<TokenV>, tail: Seq<char>|
                                fits(vv, sview(*shape)) && encodable(vv) && (s0.top_level
                                    ==> top_ok(vv)) && #[trigger] s0.has_stream(
                                    toks_v(vv, s0.top_level).add(rest_ts),
                                    tail,
                                ) implies (vview(out) == vv && self.has_stream(rest_ts, tail)
                                && self.top_level == (s0.top_level && !uses_flag(vv))) by {
                                record_hyp_bridge(s0, vv, name@, rest_ts, tail);
                                let rest2 = seq![TokenV::GroupEnd] + rest_ts;
                                assert(rest2.skip(1) =~= rest_ts);
                            }
                        }
                        Ok(out)
                    },
                }
            },
            Shape::Dict(inner) => {
                match self.deserialize_map(inner) {
                    Err(e) => {
                        proof {
                            assert forall|vv: ValueV, rest_ts: Seq<TokenV>, tail: Seq<char>|
                                fits(vv, sview(*shape)) && encodable(vv) && (s0.top_level
                                    ==> top_ok(vv)) && #[trigger] s0.has_stream(
                                    toks_v(vv, s0.top_level).add(rest_ts),
                                    tail,
                                ) implies false by {
                                dict_hyp_bridge(s0, vv, rest_ts, tail);
                            }
                        }
                        Err(e)
                    },
                    Ok(es2) => {
                        let out = Value::Dict(es2);
                        proof {
                            assert forall|vv: ValueV, rest_ts: Seq<TokenV>, tail: Seq<char>|
                                fits(vv, sview(*shape)) && encodable(vv) && (s0.top_level
                                    ==> top_ok(vv)) && #[trigger] s0.has_stream(
                                    toks_v(vv, s0.top_level).add(rest_ts),
                                    tail,
                                ) implies (vview(out) == vv && self.has_stream(rest_ts, tail)
                                && self.top_level == (s0.top_level && !uses_flag(vv))) by {
                                dict_hyp_bridge(s0, vv, rest_ts, tail);
                                let rest2 = seq![TokenV::GroupEnd] + rest_ts;
                                assert(rest2.skip(1) =~= rest_ts);
                            }
                        }
                        Ok(out)
                    },
                }
            },
        }
    }
}

/// Restates a record's stream hypothesis in the form the record decoder's
/// contract quantifies over.
proof fn record_hyp_bridge(s0: Deserializer, vv: ValueV, n2: Seq<char>, rest_ts: Seq<TokenV>, tail: Seq<char>)
    requires
        vv matches ValueV::Record(n, ves) && n == n2,
        encodable(vv),
        s0.has_stream(toks_v(vv, s0.top_level) + rest_ts, tail),
    ensures
        vv matches ValueV::Record(n, ves) && s0.has_stream(
            name_toks(s0.top_level, n2).add(seq![TokenV::GroupStart]).add(toks_entries(ves)).add(
                seq![TokenV::GroupEnd] + rest_ts,
            ),
            tail,
        ) && entries_enc(ves) && (seq![TokenV::GroupEnd] + rest_ts).len() > 0 && (seq![
            TokenV::GroupEnd,
        ] + rest_ts)[0] == TokenV::GroupEnd,
{
    let ves = vv->Record_1;
    assert(toks_v(vv, s0.top_level) + rest_ts =~= name_toks(s0.top_level, n2).add(
        seq![TokenV::GroupStart],
    ).add(toks_entries(ves)).add(seq![TokenV::GroupEnd] + rest_ts));
}

/// Restates a map's stream hypothesis in the form the map decoder's
/// contract quantifies over.
proof fn dict_hyp_bridge(s0: Deserializer, vv: ValueV, rest_ts: Seq<TokenV>, tail: Seq<char>)
    requires
        vv is Dict,
        encodable(vv),
        s0.top_level ==> top_ok(vv),
        s0.has_stream(toks_v(vv, s0.top_level) + rest_ts, tail),
    ensures
        vv matches ValueV::Dict(ves) && s0.has_stream(
            seq![TokenV::GroupStart].add(toks_entries(ves)).add(seq![TokenV::GroupEnd] + rest_ts),
            tail,
        ) && entries_enc(ves) && (s0.top_level ==> entries_ff(ves)) && (seq![TokenV::GroupEnd]
            + rest_ts).len() > 0 && (seq![TokenV::GroupEnd] + rest_ts)[0] == TokenV::GroupEnd,
{
    let ves = vv->Dict_0;
    assert(toks_v(vv, s0.top_level) + rest_ts =~= seq![TokenV::GroupStart].add(
        toks_entries(ves),
    ).add(seq![TokenV::GroupEnd] + rest_ts));
}


/// The stream a named record's document presents begins with its name when
/// the top-level flag is pending, and is never empty.
proof fn struct_hyp_first(s0: Deserializer, n: Seq<char>, fields: Seq<(String, Shape)>)
    ensures
        forall|ves: Seq<(Seq<char>, ValueV)>, rest2: Seq<TokenV>, tail: Seq<char>|
            #[trigger] s0.has_stream(
                name_toks(s0.top_level, n).add(seq![TokenV::GroupStart]).add(toks_entries(ves)).add(
                    rest2,
                ),
                tail,
            ) ==> {
                let ts = name_toks(s0.top_level, n) + seq![TokenV::GroupStart] + toks_entries(ves)
                    + rest2;
                ts.len() > 0 && (s0.top_level ==> ts[0] == TokenV::Item(n)) && (!s0.top_level
                    ==> ts[0] == TokenV::GroupStart)
            },
{
    assert forall|ves: Seq<(Seq<char>, ValueV)>, rest2: Seq<TokenV>, tail: Seq<char>|
        #[trigger] s0.has_stream(
            name_toks(s0.top_level, n).add(seq![TokenV::GroupStart]).add(toks_entries(ves)).add(
                rest2,
            ),
            tail,
        ) implies {
        let ts = name_toks(s0.top_level, n) + seq![TokenV::GroupStart] + toks_entries(ves) + rest2;
        ts.len() > 0 && (s0.top_level ==> ts[0] == TokenV::Item(n)) && (!s0.top_level ==> ts[0]
            == TokenV::GroupStart)
    } by {
        let ts = name_toks(s0.top_level, n) + seq![TokenV::GroupStart] + toks_entries(ves) + rest2;
        if s0.top_level {
            assert(ts[0] == TokenV::Item(n));
        } else {
            assert(name_toks(false, n) =~= Seq::<TokenV>::empty());
            assert(ts[0] == TokenV::GroupStart);
        }
    }
}


/// A wrapper type at the top of a run never admits a round-trip stream
/// hypothesis: its decoding would consume the name its encoding never wrote.
proof fn newtype_top_vacuous(s0: Deserializer, sv: ShapeV)
    requires
        s0.top_level,
        sv is Newtype,
    ensures
        forall|vv: ValueV, rest_ts: Seq<TokenV>, tail: Seq<char>|
            !(fits(vv, sv) && encodable(vv) && (s0.top_level ==> top_ok(vv)) && #[trigger] s0.has_stream(
                toks_v(vv, s0.top_level).add(rest_ts),
                tail,
            )),
{
    assert forall|vv: ValueV, rest_ts: Seq<TokenV>, tail: Seq<char>|
        !(fits(vv, sv) && encodable(vv) && (s0.top_level ==> top_ok(vv))
            && #[trigger] s0.has_stream(toks_v(vv, s0.top_level).add(rest_ts), tail)) by {
        if fits(vv, sv) {
            assert(vv is Newtype);
            assert(!top_ok(vv));
        }
    }
}


/// Streams concatenate: a text that delivers `a` leaving `mid`, where `mid`
/// delivers `b` leaving `tail`, delivers `a + b` leaving `tail`.
proof fn lemma_stream_append(txt: Seq<char>, a: Seq<TokenV>, b: Seq<TokenV>, mid: Seq<char>, tail: Seq<char>)
    requires
        is_stream(txt, a, mid),
        is_stream(mid, b, tail),
    ensures
        is_stream(txt, a + b, tail),
    decreases a.len(),
{
    if a.len() == 0 {
        assert(txt == mid);
        assert(a + b =~= b);
    } else {
        let (pre, rest) = choose|pre: Seq<char>, rest: Seq<char>|
            ws_only(pre) && txt == pre + tok_text(a[0]) + rest && is_stream(
                skip_ws(rest),
                a.skip(1),
                mid,
            );
        lemma_stream_append(skip_ws(rest), a.skip(1), b, mid, tail);
        assert((a + b)[0] == a[0]);
        assert((a + b).skip(1) =~= a.skip(1) + b);
        assert(ws_only(pre) && txt == pre + tok_text((a + b)[0]) + rest && is_stream(
            skip_ws(rest),
            (a + b).skip(1),
            tail,
        ));
    }
}

/// A token's written form never begins with whitespace.
proof fn lemma_tok_text_head(tk: TokenV)
    ensures
        tok_text(tk).len() > 0,
        !ws_char(tok_text(tk)[0]),
{
    match tk {
        TokenV::Item(s) => {
            assert(tok_text(tk)[0] == '"');
        },
        TokenV::Statement(s) => {
            assert(tok_text(tk)[0] == '#');
        },
        TokenV::GroupStart => {
            assert(tok_text(tk)[0] == '{');
        },
        TokenV::GroupEnd => {
            assert(tok_text(tk)[0] == '}');
        },
    }
}

/// A value always presents at least one token.
proof fn lemma_toks_len(v: ValueV, named: bool)
    ensures
        toks_v(v, named).len() >= 1,
    decreases v,
{
    match v {
        ValueV::Opt(x) => {
            lemma_toks_len(*x, named);
        },
        ValueV::Newtype(_, x) => {
            lemma_toks_len(*x, named);
        },
        _ => {},
    }
}

/// Leading whitespace does not change what a text streams to.
proof fn lemma_stream_skip_intro(txt: Seq<char>, ts: Seq<TokenV>, tail: Seq<char>)
    requires
        is_stream(txt, ts, tail),
        ts.len() > 0,
    ensures
        is_stream(skip_ws(txt), ts, tail),
{
    let (pre, rest) = choose|pre: Seq<char>, rest: Seq<char>|
        ws_only(pre) && txt == pre + tok_text(ts[0]) + rest && is_stream(
            skip_ws(rest),
            ts.skip(1),
            tail,
        );
    lemma_tok_text_head(ts[0]);
    crate::text::lemma_skip_ws_concat(pre, tok_text(ts[0]) + rest);
    assert(pre + (tok_text(ts[0]) + rest) =~= txt);
    assert((tok_text(ts[0]) + rest)[0] == tok_text(ts[0])[0]);
    crate::text::lemma_skip_ws_noop(tok_text(ts[0]) + rest);
    assert(skip_ws(txt) == tok_text(ts[0]) + rest);
    assert(ws_only(Seq::<char>::empty()) && skip_ws(txt) == Seq::<char>::empty() + tok_text(
        ts[0],
    ) + rest && is_stream(skip_ws(rest), ts.skip(1), tail)) by {
        assert(Seq::<char>::empty() + tok_text(ts[0]) + rest =~= tok_text(ts[0]) + rest);
    }
}

/// Indentation is whitespace.
proof fn lemma_tabs_ws(n: nat)
    ensures
        ws_only(tabs(n)),
    decreases n,
{
    if n > 0 {
        lemma_tabs_ws((n - 1) as nat);
    }
}

/// The written form of one token, followed by anything, streams to that
/// token and leaves the rest with its leading whitespace skipped.
proof fn lemma_single_token(tk: TokenV, rest: Seq<char>)
    requires
        tok_ok(tk),
    ensures
        is_stream(tok_text(tk) + rest, seq![tk], skip_ws(rest)),
{
    let ts = seq![tk];
    assert(ts[0] == tk);
    assert(ts.skip(1) =~= Seq::<TokenV>::empty());
    assert(is_stream(skip_ws(rest), ts.skip(1), skip_ws(rest)));
    assert(ws_only(Seq::<char>::empty()) && tok_text(tk) + rest == Seq::<char>::empty()
        + tok_text(tk) + rest && is_stream(skip_ws(rest), ts.skip(1), skip_ws(rest))) by {
        assert(Seq::<char>::empty() + tok_text(tk) + rest =~= tok_text(tk) + rest);
    }
}

/// The text a value encodes to streams to exactly its token sequence,
/// leaving whatever follows with its leading whitespace skipped.
pub proof fn lemma_val_stream(vv: ValueV, ind: nat, rest: Seq<char>)
    requires
        encodable(vv),
    ensures
        is_stream(val_text(vv, ind) + rest, toks_v(vv, ind == 0), skip_ws(rest)),
    decreases vsize(vv), 0int,
{
    match vv {
        ValueV::Opt(x) => {
            lemma_val_stream(*x, ind, rest);
        },
        ValueV::Newtype(_, x) => {
            lemma_val_stream(*x, ind, rest);
        },
        ValueV::Record(n, es) => {
            let close_rest = tabs(ind) + seq!['}'] + rest;
            let e_text = entries_text(es, ind + 1);
            let r3 = seq!['\n'] + e_text + close_rest;
            let r2 = seq!['{'] + r3;
            let r1 = seq!['\n'] + tabs(ind) + r2;
            lemma_entries_stream(es, ind + 1, close_rest);
            assert(skip_ws(e_text + close_rest) == skip_ws(r3)) by {
                crate::text::lemma_skip_ws_concat(seq!['\n'], e_text + close_rest);
                assert(seq!['\n'] + (e_text + close_rest) =~= r3);
            }
            // the closing delimiter
            let s_close = is_stream(skip_ws(close_rest), seq![TokenV::GroupEnd], skip_ws(rest));
            assert(s_close) by {
                lemma_single_token(TokenV::GroupEnd, rest);
                lemma_tabs_ws(ind);
                crate::text::lemma_skip_ws_concat(tabs(ind), seq!['}'] + rest);
                assert(tabs(ind) + (seq!['}'] + rest) =~= close_rest);
                crate::text::lemma_skip_ws_noop(seq!['}'] + rest);
                assert(skip_ws(close_rest) == seq!['}'] + rest);
                assert(tok_text(TokenV::GroupEnd) + rest =~= seq!['}'] + rest);
            }
            // entries followed by the closing delimiter
            let toks_tail = toks_entries(es) + seq![TokenV::GroupEnd];
            assert(is_stream(skip_ws(r3), toks_tail, skip_ws(rest))) by {
                lemma_stream_append(
                    skip_ws(r3),
                    toks_entries(es),
                    seq![TokenV::GroupEnd],
                    skip_ws(close_rest),
                    skip_ws(rest),
                );
            }
            // the opening delimiter
            assert(is_stream(r2, seq![TokenV::GroupStart] + toks_tail, skip_ws(rest))) by {
                assert(tok_text(TokenV::GroupStart) + r3 =~= r2);
                lemma_single_token(TokenV::GroupStart, r3);
                lemma_stream_append(
                    r2,
                    seq![TokenV::GroupStart],
                    toks_tail,
                    skip_ws(r3),
                    skip_ws(rest),
                );
            }
            assert(is_stream(r1, seq![TokenV::GroupStart] + toks_tail, skip_ws(rest))) by {
                lemma_tabs_ws(ind);
                assert(ws_only(seq!['\n'] + tabs(ind)));
                assert((seq!['\n'] + tabs(ind)) + r2 =~= r1);
                assert(((seq![TokenV::GroupStart] + toks_tail))[0] == TokenV::GroupStart);
                let inner = choose|pre: Seq<char>, rest9: Seq<char>|
                    ws_only(pre) && r2 == pre + tok_text(
                        (seq![TokenV::GroupStart] + toks_tail)[0],
                    ) + rest9 && is_stream(
                        skip_ws(rest9),
                        (seq![TokenV::GroupStart] + toks_tail).skip(1),
                        skip_ws(rest),
                    );
                let (pre9, rest9) = inner;
                assert(ws_only(seq!['\n'] + tabs(ind) + pre9) && r1 == (seq!['\n'] + tabs(ind)
                    + pre9) + tok_text((seq![TokenV::GroupStart] + toks_tail)[0]) + rest9) by {
                    assert(r1 =~= (seq!['\n'] + tabs(ind) + pre9) + tok_text(
                        (seq![TokenV::GroupStart] + toks_tail)[0],
                    ) + rest9);
                    assert(forall|i: int|
                        0 <= i < (seq!['\n'] + tabs(ind) + pre9).len() ==> ws_char(
                            #[trigger] (seq!['\n'] + tabs(ind) + pre9)[i],
                        ));
                }
            }
            if ind == 0 {
                assert(quote_item(n) == raw_quote(n)) by {
                    crate::ser::lemma_escape_plain(n);
                }
                assert(is_stream(
                    quote_item(n) + r1,
                    seq![TokenV::Item(n)] + (seq![TokenV::GroupStart] + toks_tail),
                    skip_ws(rest),
                )) by {
                    lemma_single_token(TokenV::Item(n), r1);
                    lemma_stream_skip_intro(
                        r1,
                        seq![TokenV::GroupStart] + toks_tail,
                        skip_ws(rest),
                    );
                    lemma_stream_append(
                        quote_item(n) + r1,
                        seq![TokenV::Item(n)],
                        seq![TokenV::GroupStart] + toks_tail,
                        skip_ws(r1),
                        skip_ws(rest),
                    );
                }
                assert(val_text(vv, ind) + rest =~= quote_item(n) + r1);
                assert(toks_v(vv, true) =~= seq![TokenV::Item(n)] + (seq![TokenV::GroupStart]
                    + toks_tail));
            } else {
                assert(val_text(vv, ind) + rest =~= r1);
                assert(toks_v(vv, false) =~= seq![TokenV::GroupStart] + toks_tail);
            }
        },
        ValueV::Dict(es) => {
            let close_rest = tabs(ind) + seq!['}'] + rest;
            let e_text = entries_text(es, ind + 1);
            let r3 = seq!['\n'] + e_text + close_rest;
            let r2 = seq!['{'] + r3;
            let r1 = seq!['\n'] + tabs(ind) + r2;
            lemma_entries_stream(es, ind + 1, close_rest);
            assert(skip_ws(e_text + close_rest) == skip_ws(r3)) by {
                crate::text::lemma_skip_ws_concat(seq!['\n'], e_text + close_rest);
                assert(seq!['\n'] + (e_text + close_rest) =~= r3);
            }
            let s_close = is_stream(skip_ws(close_rest), seq![TokenV::GroupEnd], skip_ws(rest));
            assert(s_close) by {
                lemma_single_token(TokenV::GroupEnd, rest);
                lemma_tabs_ws(ind);
                crate::text::lemma_skip_ws_concat(tabs(ind), seq!['}'] + rest);
                assert(tabs(ind) + (seq!['}'] + rest) =~= close_rest);
                crate::text::lemma_skip_ws_noop(seq!['}'] + rest);
                assert(skip_ws(close_rest) == seq!['}'] + rest);
                assert(tok_text(TokenV::GroupEnd) + rest =~= seq!['}'] + rest);
            }
            let toks_tail = toks_entries(es) + seq![TokenV::GroupEnd];
            assert(is_stream(skip_ws(r3), toks_tail, skip_ws(rest))) by {
                lemma_stream_append(
                    skip_ws(r3),
                    toks_entries(es),
                    seq![TokenV::GroupEnd],
                    skip_ws(close_rest),
                    skip_ws(rest),
                );
            }
            assert(is_stream(r2, seq![TokenV::GroupStart] + toks_tail, skip_ws(rest))) by {
                assert(tok_text(TokenV::GroupStart) + r3 =~= r2);
                lemma_single_token(TokenV::GroupStart, r3);
                lemma_stream_append(
                    r2,
                    seq![TokenV::GroupStart],
                    toks_tail,
                    skip_ws(r3),
                    skip_ws(rest),
                );
            }
            assert(is_stream(r1, seq![TokenV::GroupStart] + toks_tail, skip_ws(rest))) by {
                lemma_tabs_ws(ind);
                assert((seq!['\n'] + tabs(ind)) + r2 =~= r1);
                let inner = choose|pre: Seq<char>, rest9: Seq<char>|
                    ws_only(pre) && r2 == pre + tok_text(
                        (seq![TokenV::GroupStart] + toks_tail)[0],
                    ) + rest9 && is_stream(
                        skip_ws(rest9),
                        (seq![TokenV::GroupStart] + toks_tail).skip(1),
                        skip_ws(rest),
                    );
                let (pre9, rest9) = inner;
                assert(ws_only(seq!['\n'] + tabs(ind) + pre9) && r1 == (seq!['\n'] + tabs(ind)
                    + pre9) + tok_text((seq![TokenV::GroupStart] + toks_tail)[0]) + rest9) by {
                    assert(r1 =~= (seq!['\n'] + tabs(ind) + pre9) + tok_text(
                        (seq![TokenV::GroupStart] + toks_tail)[0],
                    ) + rest9);
                    assert(forall|i: int|
                        0 <= i < (seq!['\n'] + tabs(ind) + pre9).len() ==> ws_char(
                            #[trigger] (seq!['\n'] + tabs(ind) + pre9)[i],
                        ));
                }
            }
            assert(val_text(vv, ind) + rest =~= r1);
            assert(toks_v(vv, ind == 0) =~= seq![TokenV::GroupStart] + toks_tail);
        },
        _ => {
            lemma_scalar_item_ok(vv);
            lemma_single_token(TokenV::Item(scalar_item(vv)), rest);
            assert(val_text(vv, ind) + rest =~= tok_text(TokenV::Item(scalar_item(vv))) + rest);
            assert(toks_v(vv, ind == 0) =~= seq![TokenV::Item(scalar_item(vv))]);
        },
    }
}

/// The entry texts of a group stream to the entry tokens.
proof fn lemma_entries_stream(es: Seq<(Seq<char>, ValueV)>, ind: nat, rest: Seq<char>)
    requires
        forall|i: int|
            0 <= i < es.len() ==> item_ok(#[trigger] es[i].0) && encodable(es[i].1),
        ind >= 1,
    ensures
        is_stream(skip_ws(entries_text(es, ind) + rest), toks_entries(es), skip_ws(rest)),
    decreases esize(es), 1int,
{
    if es.len() == 0 {
        assert(entries_text(es, ind) + rest =~= rest);
    } else {
        let k = es[0].0;
        let v = es[0].1;
        let es2 = es.subrange(1, es.len() as int);
        let sep: Seq<char> = if trims(v, ind) {
            Seq::<char>::empty()
        } else {
            seq!['\t']
        };
        let r_after = seq!['\n'] + entries_text(es2, ind) + rest;
        let b_text = val_text(v, ind) + r_after;
        let a1 = sep + b_text;
        let t_full = entries_text(es, ind) + rest;
        assert(t_full =~= tabs(ind) + (quote_item(k) + a1)) by {
            assert(entries_text(es, ind) == entry_text(es[0], ind) + entries_text(es2, ind));
            assert(entry_text(es[0], ind) == tabs(ind) + quote_item(k) + sep + val_text(v, ind)
                + seq!['\n']);
        }
        // S1: the key token
        lemma_tabs_ws(ind);
        crate::text::lemma_skip_ws_concat(tabs(ind), quote_item(k) + a1);
        assert(tabs(ind) + (quote_item(k) + a1) =~= t_full);
        assert((quote_item(k) + a1)[0] == '"');
        crate::text::lemma_skip_ws_noop(quote_item(k) + a1);
        assert(skip_ws(t_full) == quote_item(k) + a1);
        lemma_single_token(TokenV::Item(k), a1);
        assert(tok_text(TokenV::Item(k)) + a1 =~= quote_item(k) + a1);
        // S2: the value's tokens
        assert(vsize(v) < esize(es));
        lemma_val_stream(v, ind, r_after);
        assert(ind != 0);
        lemma_toks_len(v, false);
        lemma_stream_skip_intro(b_text, toks_v(v, false), skip_ws(r_after));
        assert(skip_ws(a1) == skip_ws(b_text)) by {
            if trims(v, ind) {
                assert(a1 =~= b_text);
            } else {
                crate::text::lemma_skip_ws_concat(seq!['\t'], b_text);
                assert(seq!['\t'] + b_text =~= a1);
            }
        }
        // S3: the remaining entries
        assert(esize(es2) < esize(es));
        lemma_entries_stream(es2, ind, rest);
        assert(skip_ws(r_after) == skip_ws(entries_text(es2, ind) + rest)) by {
            crate::text::lemma_skip_ws_concat(seq!['\n'], entries_text(es2, ind) + rest);
            assert(seq!['\n'] + (entries_text(es2, ind) + rest) =~= r_after);
        }
        // glue
        lemma_stream_append(
            skip_ws(t_full),
            seq![TokenV::Item(k)],
            toks_v(v, false),
            skip_ws(a1),
            skip_ws(r_after),
        );
        lemma_stream_append(
            skip_ws(t_full),
            seq![TokenV::Item(k)] + toks_v(v, false),
            toks_entries(es2),
            skip_ws(r_after),
            skip_ws(rest),
        );
        assert((seq![TokenV::Item(k)] + toks_v(v, false)) + toks_entries(es2) =~= toks_entries(
            es,
        ));
    }
}

/// Every scalar leaf's text survives the tokenizer as an item.
proof fn lemma_scalar_item_ok(vv: ValueV)
    requires
        encodable(vv),
        !(vv is Record),
        !(vv is Dict),
        !(vv is Opt),
        !(vv is Newtype),
    ensures
        item_ok(scalar_item(vv)),
{
    match vv {
        ValueV::Bool(b) => {
            let s = scalar_item(vv);
            assert(s.len() == 1);
            assert(s[0] == '1' || s[0] == '0');
            assert(forall|i: int| 0 <= i < s.len() ==> #[trigger] s[i] != '\t');
            assert(forall|i: int|
                0 <= i < s.len() ==> !crate::text::esc_run_char(#[trigger] s[i]));
        },
        ValueV::I8(n) => {
            crate::num::lemma_int_text(n as int);
        },
        ValueV::I16(n) => {
            crate::num::lemma_int_text(n as int);
        },
        ValueV::I32(n) => {
            crate::num::lemma_int_text(n as int);
        },
        ValueV::I64(n) => {
            crate::num::lemma_int_text(n as int);
        },
        ValueV::U8(n) => {
            crate::num::lemma_int_text(n as int);
        },
        ValueV::U16(n) => {
            crate::num::lemma_int_text(n as int);
        },
        ValueV::U32(n) => {
            crate::num::lemma_int_text(n as int);
        },
        ValueV::U64(n) => {
            crate::num::lemma_int_text(n as int);
        },
        _ => {},
    }
}

/// A text whose whitespace-skipped remainder is all whitespace was all
/// whitespace to begin with.
proof fn lemma_ws_only_skip(t: Seq<char>)
    requires
        ws_only(skip_ws(t)),
    ensures
        ws_only(t),
    decreases t.len(),
{
    if t.len() > 0 && ws_char(t[0]) {
        lemma_ws_only_skip(t.drop_first());
        assert forall|i: int| 0 <= i < t.len() implies ws_char(#[trigger] t[i]) by {
            if i >= 1 {
                assert(t[i] == t.drop_first()[i - 1]);
                assert(ws_char(t.drop_first()[i - 1]));
            }
        }
    }
}

/// Whether a text is nothing but whitespace.
fn is_all_ws(s: &str) -> (r: bool)
    ensures
        r == ws_only(s@),
{
    let n = s.unicode_len();
    let mut i: usize = 0;
    while i < n
        invariant
            i <= n,
            n == s@.len(),
            forall|k: int| 0 <= k < i ==> ws_char(#[trigger] s@[k]),
        decreases n - i,
    {
        let c = s.get_char(i);
        if !(c == ' ' || c == '\t' || c == '\n' || c == '\r') {
            return false;
        }
        i = i + 1;
    }
    true
}

/// Decodes one complete document of the given shape.
///
/// After the value, only whitespace may remain; any other remainder is a
/// late-end-of-input error. The contract states the codec's round trip: a
/// document that is the encoding of a fitting, encodable value — with the
/// top-level name handled as encoding wrote it — decodes back to that value,
/// while a document whose leading name token mismatches a named shape fails
/// with a structural mismatch.
pub fn from_str(s: &str, shape: &Shape) -> (r: Result<Value, Error>)
    ensures
        forall|vv: ValueV, trailing: Seq<char>|
            #![trigger val_text(vv, 0).add(trailing)]
            fits(vv, sview(*shape)) && encodable(vv) && top_ok(vv) && ws_only(trailing) && s@
                == val_text(vv, 0) + trailing ==> (r matches Ok(out) && vview(out) == vv),
        forall|vv: ValueV, trailing: Seq<char>|
            #![trigger val_text(vv, 0).add(trailing)]
            fits(vv, sview(*shape)) && encodable(vv) && top_ok(vv) && !ws_only(trailing) && s@
                == val_text(vv, 0) + trailing ==> (r matches Err(e) && e.deep_view()
                is LateEOF),
        forall|pre: Seq<char>, n: Seq<char>, rest: Seq<char>|
            #[trigger] splits_item(s@, pre, n, rest) && (top_name(sview(*shape)) matches
            Option::Some(n2) && n != n2) ==> (r matches Err(e) && e.deep_view()
            == ErrorV::Expected(
            top_name(sview(*shape))->Some_0,
            describe_token_spec(TokenV::Item(n)),
        )),
        forall|pre: Seq<char>, rest: Seq<char>|
            #[trigger] crate::text::splits_open(s@, pre, rest) && top_name(sview(*shape))
                is Some ==> (r matches Err(e) && e.deep_view() == ErrorV::Expected(
                top_name(sview(*shape))->Some_0,
                describe_token_spec(TokenV::GroupStart),
            )),
        forall|pre: Seq<char>, rest: Seq<char>|
            #[trigger] crate::text::splits_close(s@, pre, rest) && top_name(sview(*shape))
                is Some ==> (r matches Err(e) && e.deep_view() == ErrorV::Expected(
                top_name(sview(*shape))->Some_0,
                describe_token_spec(TokenV::GroupEnd),
            )),
        ws_only(s@) ==> (r matches Err(e) && e.deep_view() is EarlyEOF),
        forall|vv: ValueV, tail: Seq<char>|
            #![trigger is_stream(s@, toks_v(vv, true), tail)]
            fits(vv, sview(*shape)) && encodable(vv) && top_ok(vv) && ws_only(tail) && is_stream(
                s@,
                toks_v(vv, true),
                tail,
            ) ==> (r matches Ok(out) && vview(out) == vv),
        forall|vv: ValueV, tail: Seq<char>|
            #![trigger is_stream(s@, toks_v(vv, true), tail)]
            fits(vv, sview(*shape)) && encodable(vv) && top_ok(vv) && !ws_only(tail) && is_stream(
                s@,
                toks_v(vv, true),
                tail,
            ) ==> (r matches Err(e) && e.deep_view() is LateEOF),
{
    let mut de = Deserializer::from_str(s);
    let ghost d0 = de;
    let v = match de.decode_value(shape) {
        Err(e) => {
            proof {
                assert forall|vv: ValueV, trailing: Seq<char>|
                    fits(vv, sview(*shape)) && encodable(vv) && top_ok(vv) && s@ == #[trigger] val_text(
                    vv,
                    0,
                ).add(trailing) implies false by {
                    lemma_val_stream(vv, 0, trailing);
                    assert(d0.top_level);
                    assert(d0.input@ == val_text(vv, 0) + trailing);
                    assert(is_stream(d0.input@, toks_v(vv, true), skip_ws(trailing)));
                    assert(d0.sq() =~= Seq::<TokenV>::empty());
                    let full = toks_v(vv, d0.top_level) + Seq::<TokenV>::empty();
                    assert(full =~= toks_v(vv, true));
                    assert(d0.sq() =~= full.take(0));
                    assert(full.skip(0) =~= toks_v(vv, true));
                    assert(d0.has_stream(
                        toks_v(vv, d0.top_level).add(Seq::<TokenV>::empty()),
                        skip_ws(trailing),
                    ));
                }
            }
            proof {
                assert forall|vv: ValueV, tail: Seq<char>|
                    fits(vv, sview(*shape)) && encodable(vv) && top_ok(vv) && #[trigger] is_stream(
                    s@,
                    toks_v(vv, true),
                    tail,
                ) implies false by {
                    assert(d0.top_level);
                    assert(is_stream(d0.input@, toks_v(vv, true), tail));
                    assert(d0.sq() =~= Seq::<TokenV>::empty());
                    let full = toks_v(vv, d0.top_level) + Seq::<TokenV>::empty();
                    assert(full =~= toks_v(vv, true));
                    assert(d0.sq() =~= full.take(0));
                    assert(full.skip(0) =~= toks_v(vv, true));
                    assert(d0.has_stream(
                        toks_v(vv, d0.top_level).add(Seq::<TokenV>::empty()),
                        tail,
                    ));
                }
            }
            return Err(e);
        },
        Ok(v) => v,
    };
    let clean = is_all_ws(de.input.as_str());
    proof {
        assert forall|vv: ValueV, tail: Seq<char>|
            fits(vv, sview(*shape)) && encodable(vv) && top_ok(vv) && #[trigger] is_stream(
            s@,
            toks_v(vv, true),
            tail,
        ) implies (vview(v) == vv && de.input@ == tail && (ws_only(tail) ==> clean) && (!ws_only(
            tail,
        ) ==> !clean)) by {
            assert(d0.top_level);
            assert(is_stream(d0.input@, toks_v(vv, true), tail));
            assert(d0.sq() =~= Seq::<TokenV>::empty());
            let full = toks_v(vv, d0.top_level) + Seq::<TokenV>::empty();
            assert(full =~= toks_v(vv, true));
            assert(d0.sq() =~= full.take(0));
            assert(full.skip(0) =~= toks_v(vv, true));
            assert(d0.has_stream(toks_v(vv, d0.top_level).add(Seq::<TokenV>::empty()), tail));
            assert(de.has_stream(Seq::<TokenV>::empty(), tail));
            assert(de.sq().len() == 0);
            assert(de.input@ == tail);
        }
    }
    proof {
        assert forall|vv: ValueV, trailing: Seq<char>|
            fits(vv, sview(*shape)) && encodable(vv) && top_ok(vv) && s@ == #[trigger] val_text(
            vv,
            0,
        ).add(trailing) implies (vview(v) == vv && de.input@ == skip_ws(trailing)
            && (ws_only(trailing) ==> clean) && (!ws_only(trailing) ==> !clean)) by {
            lemma_val_stream(vv, 0, trailing);
            assert(d0.top_level);
            assert(d0.input@ == val_text(vv, 0) + trailing);
            assert(is_stream(d0.input@, toks_v(vv, true), skip_ws(trailing)));
            assert(d0.sq() =~= Seq::<TokenV>::empty());
            let full = toks_v(vv, d0.top_level) + Seq::<TokenV>::empty();
            assert(full =~= toks_v(vv, true));
            assert(d0.sq() =~= full.take(0));
            assert(full.skip(0) =~= toks_v(vv, true));
            assert(d0.has_stream(
                toks_v(vv, d0.top_level).add(Seq::<TokenV>::empty()),
                skip_ws(trailing),
            ));
            assert(de.has_stream(Seq::<TokenV>::empty(), skip_ws(trailing)));
            assert(de.sq().len() == 0);
            assert(de.input@ == skip_ws(trailing));
            if ws_only(trailing) {
                crate::text::lemma_skip_ws_all(trailing);
            }
            if clean && !ws_only(trailing) {
                lemma_ws_only_skip(trailing);
            }
        }
    }
    if clean {
        Ok(v)
    } else {
        Err(Error::LateEOF)
    }
}

} // verus!
