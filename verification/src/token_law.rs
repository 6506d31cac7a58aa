//! Tokens come in order: each starts where the lexer stood or later and ends
//! where it leaves the lexer, no two overlap, only the end of input is empty,
//! and once the input has ended every further token is the same end.
use vstd::prelude::*;
use crate::lex_spec::{
    lemma_lex_token, lemma_next_token, lemma_skip_trivia, skip_bad_byte, spec_next_token, spec_skip_trivia,
    starts_token, LexModel,
};

verus! {

proof fn lemma_token_span(m: LexModel)
    requires
        m.valid(),
    ensures
        m.pos <= spec_next_token(m).1.span.start <= spec_next_token(m).1.span.end,
        spec_next_token(m).1.span.end == spec_next_token(m).0.pos,
        spec_next_token(m).1.tok is Eof ==> spec_next_token(m).1.span.start == spec_next_token(m).1.span.end,
    decreases m.len() + 2 - m.pos,
{
    lemma_skip_trivia(m);
    let m1 = spec_skip_trivia(m);
    if 0 <= m1.pos < m1.len() {
        if starts_token(m1) {
            lemma_lex_token(m1);
        } else {
            lemma_token_span(skip_bad_byte(m1));
        }
    }
}

/// Two tokens read one after the other: the first lies within itself and
/// before the second, only the end of input is empty, and after the end of
/// input the lexer gives the same end again.
pub proof fn law_tokens_in_order(m: LexModel)
    requires
        m.valid(),
    ensures
        ({
            let (m1, t1) = spec_next_token(m);
            let t2 = spec_next_token(m1).1;
            &&& m.pos <= t1.span.start <= t1.span.end <= t2.span.start
            &&& !(t1.tok is Eof) ==> t1.span.start < t1.span.end
            &&& t1.tok is Eof ==> t2.tok is Eof && t2.span == t1.span
        }),
{
    lemma_next_token(m);
    lemma_token_span(m);
    let m1 = spec_next_token(m).0;
    lemma_token_span(m1);
    if spec_next_token(m).1.tok is Eof {
        lemma_skip_trivia(m1);
        assert(spec_skip_trivia(m1) == m1);
    }
}

} // verus!
