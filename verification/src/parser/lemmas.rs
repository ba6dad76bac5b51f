//! Facts about the parsing functions of `spec`: every token consumed lowers
//! the measure `progress`.
use vstd::prelude::*;
use crate::error::SpecError;
use crate::lexer::lemmas::lemma_lex_next_bounds;
use crate::lexer::spec::{lex_next, skip_trivia};
use crate::token::SpecToken;
use crate::lexer::spec::read_stream;
use crate::object::SpecObject;
use crate::token::Keyword;
use super::spec::{
    drop_queued, fill, next_tok, parse_array, parse_dict, parse_indirect,
    parse_object, parse_stream, peek, progress, queue_weight, ParseState,
};

verus! {

/// What one call of the lexer does to its position, wherever it stands.
pub proof fn lemma_lex_step(buf: Seq<u8>, pos: int)
    ensures
        lex_next(buf, pos) matches Some((t, q)) ==> {
            &&& (t matches Some(Ok(_)) ==> 0 <= pos < q <= buf.len())
            &&& (0 <= pos <= buf.len() ==> pos <= q <= buf.len())
            &&& (!(0 <= pos <= buf.len()) ==> q == pos && t is None)
        },
{
    if 0 <= pos <= buf.len() {
        lemma_lex_next_bounds(buf, pos);
    } else {
        assert(skip_trivia(buf, pos, false) == pos);
    }
}

pub proof fn lemma_weight_push(q: Seq<Result<SpecToken, SpecError>>, x: Result<SpecToken, SpecError>)
    ensures
        queue_weight(q.push(x)) == queue_weight(q) + (if x is Ok { 2int } else { 1int }),
    decreases q.len(),
{
    if q.len() > 0 {
        assert(q.push(x).drop_first() =~= q.drop_first().push(x));
        assert(q.push(x)[0] == q[0]);
        lemma_weight_push(q.drop_first(), x);
    } else {
        assert(q.push(x).drop_first() =~= q);
    }
}

pub proof fn lemma_weight_nonneg(q: Seq<Result<SpecToken, SpecError>>)
    ensures
        queue_weight(q) >= 0,
    decreases q.len(),
{
    if q.len() > 0 {
        lemma_weight_nonneg(q.drop_first());
    }
}

/// Taking the first token read ahead lowers the weight by that token's weight.
pub proof fn lemma_weight_drop(q: Seq<Result<SpecToken, SpecError>>, n: int)
    requires
        0 <= n <= q.len(),
        forall|i: int| 0 <= i < n ==> #[trigger] q[i] is Ok,
    ensures
        queue_weight(q) == 2 * n + queue_weight(q.subrange(n, q.len() as int)),
    decreases n,
{
    if n == 0 {
        assert(q.subrange(0, q.len() as int) =~= q);
    } else {
        let rest = q.drop_first();
        assert forall|i: int| 0 <= i < n - 1 implies #[trigger] rest[i] is Ok by {
            assert(rest[i] == q[i + 1]);
        }
        lemma_weight_drop(rest, n - 1);
        assert(rest.subrange(n - 1, rest.len() as int) =~= q.subrange(n, q.len() as int));
    }
}

/// The measure is never negative.
pub proof fn lemma_progress_nonneg(buf: Seq<u8>, s: ParseState)
    ensures
        progress(buf, s) >= 0,
{
    lemma_weight_nonneg(s.queue);
}

/// A token taken without error lowers the measure by at least 2.
pub proof fn lemma_next_tok_ok(buf: Seq<u8>, s: ParseState)
    ensures
        next_tok(buf, s) matches Some((Some(Ok(_)), s1)) ==> progress(buf, s1) + 2 <= progress(buf, s),
        next_tok(buf, s) matches Some((_, s1)) ==> (0 <= s.pos <= buf.len() ==> 0 <= s1.pos <= buf.len()),
{
    if s.queue.len() > 0 {
        lemma_weight_drop(s.queue, 0);
        if s.queue[0] is Ok {
            lemma_weight_drop(s.queue, 1);
        }
        assert(s.queue.drop_first() =~= s.queue.subrange(1, s.queue.len() as int));
    } else {
        lemma_lex_step(buf, s.pos);
    }
}

/// Reading ahead to the token `n` places ahead, when at least `n` tokens are
/// already queued, adds at most that one token, keeps those queued, and does
/// not raise the measure when the token was read without error.
pub proof fn lemma_fill(buf: Seq<u8>, s: ParseState, n: nat)
    requires
        s.queue.len() >= n,
    ensures
        fill(buf, s, n) matches Some((got, s2)) ==> {
            &&& s2.queue.len() >= s.queue.len()
            &&& s2.queue.len() <= (if s.queue.len() >= n + 1 { s.queue.len() as int } else { n + 1int })
            &&& s2.queue.subrange(0, s.queue.len() as int) == s.queue
            &&& (got ==> s2.queue.len() >= n + 1)
            &&& (got && s2.queue[n as int] is Ok ==> progress(buf, s2) <= progress(buf, s))
            &&& progress(buf, s2) <= progress(buf, s) + 1
            &&& (0 <= s.pos <= buf.len() ==> 0 <= s2.pos <= buf.len())
        },
{
    if s.queue.len() >= n + 1 {
        assert(s.queue.subrange(0, s.queue.len() as int) =~= s.queue);
    } else {
        lemma_lex_step(buf, s.pos);
        match lex_next(buf, s.pos) {
            None => {},
            Some((None, p)) => {
                assert(s.queue.subrange(0, s.queue.len() as int) =~= s.queue);
            },
            Some((Some(t), p)) => {
                let s1 = ParseState { pos: p, queue: s.queue.push(t) };
                assert(s1.queue.len() >= n + 1);
                assert(fill(buf, s1, n) == Some((true, s1)));
                assert(s1.queue[n as int] == t);
                assert(s1.queue.subrange(0, s.queue.len() as int) =~= s.queue);
                lemma_weight_push(s.queue, t);
            },
        }
    }
}

/// The token `n` places ahead, read without error, does not raise the measure.
pub proof fn lemma_peek_ok(buf: Seq<u8>, s: ParseState, n: nat)
    requires
        s.queue.len() >= n,
    ensures
        peek(buf, s, n) matches Some((Some(Ok(_)), s1)) ==> {
            &&& progress(buf, s1) <= progress(buf, s)
            &&& s1.queue.len() >= n + 1
            &&& s1.queue.subrange(0, s.queue.len() as int) == s.queue
        },
        peek(buf, s, n) matches Some((_, s1)) ==> (0 <= s.pos <= buf.len() ==> 0 <= s1.pos <= buf.len()),
        peek(buf, s, n) matches Some((_, s1)) ==> progress(buf, s1) <= progress(buf, s) + 1,
{
    lemma_fill(buf, s, n);
}

/// Two tokens read ahead without error and then taken lower the measure by at least 4.
pub proof fn lemma_two_ahead(buf: Seq<u8>, s: ParseState)
    ensures
        peek(buf, s, 0) matches Some((Some(Ok(_)), s2)) ==> (peek(buf, s2, 1) matches Some(
            (Some(Ok(_)), s3),
        ) ==> progress(buf, drop_queued(s3, 2)) + 4 <= progress(buf, s)),
{
    lemma_peek_ok(buf, s, 0);
    if let Some((Some(Ok(_)), s2)) = peek(buf, s, 0) {
        assert(s2.queue[0] == peek(buf, s, 0).unwrap().0.unwrap());
        lemma_peek_ok(buf, s2, 1);
        if let Some((Some(Ok(_)), s3)) = peek(buf, s2, 1) {
            assert(s3.queue[0] == s3.queue.subrange(0, s2.queue.len() as int)[0]);
            assert forall|i: int| 0 <= i < 2 implies #[trigger] s3.queue[i] is Ok by {}
            lemma_weight_drop(s3.queue, 2);
        }
    }
}

/// Reading a stream's data and its `endstream` does not raise the measure.
pub proof fn lemma_stream_progress(buf: Seq<u8>, s: ParseState, dict: Seq<(Seq<u8>, SpecObject)>)
    ensures
        parse_stream(buf, s, dict) matches Some((Ok(_), s2)) ==> progress(buf, s2) < progress(buf, s),
{
    lemma_weight_nonneg(s.queue);
    if let Some(SpecObject::Integer(n)) = crate::object::dict_lookup(dict, super::spec::length_key()) {
        if let Some((Ok(data), p)) = read_stream(buf, s.pos, (n as usize) as int) {
            let s1 = ParseState { pos: p, queue: seq![] };
            assert(queue_weight(s1.queue) == 0);
            lemma_next_tok_ok(buf, s1);
        }
    }
}

/// Every object parsed without error consumes at least one token, so lowers
/// the measure `progress`.
pub proof fn lemma_object_progress(buf: Seq<u8>, s: ParseState)
    ensures
        parse_object(buf, s) matches Some((Ok(_), s2)) ==> progress(buf, s2) < progress(buf, s),
    decreases progress(buf, s), 0int,
{
    lemma_next_tok_ok(buf, s);
    lemma_progress_nonneg(buf, s);
    if let Some((Some(Ok(t)), s1)) = next_tok(buf, s) {
        lemma_progress_nonneg(buf, s1);
        lemma_lex_step(buf, s.pos);
        match t {
            SpecToken::Integer(n) => {
                lemma_peek_ok(buf, s1, 0);
                if let Some((Some(Ok(SpecToken::Integer(g))), s2)) = peek(buf, s1, 0) {
                    lemma_peek_ok(buf, s2, 1);
                    if let Some((Some(Ok(SpecToken::Keyword(k))), s3)) = peek(buf, s2, 1) {
                        lemma_two_ahead(buf, s1);
                        if k == Keyword::Obj {
                            lemma_progress_nonneg(buf, drop_queued(s3, 2));
                            lemma_indirect_progress(buf, drop_queued(s3, 2), n, g);
                        }
                    }
                }
            },
            SpecToken::ArrayBegin => {
                lemma_array_progress(buf, s1, seq![]);
            },
            SpecToken::DictBegin => {
                lemma_dict_progress(buf, s1, seq![]);
            },
            _ => {},
        }
    }
}

pub proof fn lemma_array_progress(buf: Seq<u8>, s: ParseState, acc: Seq<SpecObject>)
    ensures
        parse_array(buf, s, acc) matches Some((Ok(_), s2)) ==> progress(buf, s2) < progress(buf, s),
    decreases progress(buf, s), 1int,
{
    lemma_peek_ok(buf, s, 0);
    lemma_progress_nonneg(buf, s);
    if let Some((Some(Ok(t)), s1)) = peek(buf, s, 0) {
        lemma_progress_nonneg(buf, s1);
        lemma_fill(buf, s, 0);
        if t == SpecToken::ArrayEnd {
            lemma_weight_drop(s1.queue, 1);
        } else {
            lemma_object_progress(buf, s1);
            if let Some((Ok(o), s2)) = parse_object(buf, s1) {
                lemma_progress_nonneg(buf, s2);
                if 0 <= progress(buf, s2) < progress(buf, s) {
                    lemma_array_progress(buf, s2, acc.push(o));
                }
            }
        }
    }
}

pub proof fn lemma_dict_progress(buf: Seq<u8>, s: ParseState, acc: Seq<(Seq<u8>, SpecObject)>)
    ensures
        parse_dict(buf, s, acc) matches Some((Ok(_), s2)) ==> progress(buf, s2) < progress(buf, s),
    decreases progress(buf, s), 1int,
{
    lemma_next_tok_ok(buf, s);
    lemma_progress_nonneg(buf, s);
    if let Some((Some(Ok(SpecToken::Name(key))), s1)) = next_tok(buf, s) {
        lemma_progress_nonneg(buf, s1);
        lemma_object_progress(buf, s1);
        if let Some((Ok(v), s2)) = parse_object(buf, s1) {
            lemma_progress_nonneg(buf, s2);
            if 0 <= progress(buf, s2) < progress(buf, s) {
                lemma_dict_progress(buf, s2, acc.push((key, v)));
            }
        }
    }
}

pub proof fn lemma_indirect_progress(buf: Seq<u8>, s: ParseState, num: i64, generation: i64)
    ensures
        parse_indirect(buf, s, num, generation) matches Some((Ok(_), s2)) ==> progress(buf, s2) < progress(buf, s),
    decreases progress(buf, s), 1int,
{
    lemma_progress_nonneg(buf, s);
    lemma_object_progress(buf, s);
    if let Some((Ok(value), s1)) = parse_object(buf, s) {
        lemma_next_tok_ok(buf, s1);
        if let Some((Some(Ok(SpecToken::Keyword(Keyword::Stream))), s2)) = next_tok(buf, s1) {
            if let SpecObject::Dictionary(dict) = value {
                lemma_stream_progress(buf, s2, dict);
                if let Some((Ok(stream), s3)) = parse_stream(buf, s2, dict) {
                    lemma_next_tok_ok(buf, s3);
                }
            }
        }
    }
}

} // verus!
