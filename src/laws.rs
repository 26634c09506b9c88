use vstd::prelude::*;
use crate::lexer::lex_seq;
use crate::source::source_of;
use crate::token::{char_of, is_command, token_of};

verus! {

/// Writing back the unfolded tokens of a source text gives exactly its
/// command characters, in their order: only the comments are gone.
pub proof fn lemma_source_of_lex(s: Seq<char>)
    ensures
        source_of(lex_seq(s)) == s.filter(|c: char| is_command(c)),
    decreases s.len(),
{
    reveal(Seq::filter);
    if s.len() > 0 {
        lemma_source_of_lex(s.drop_last());
        let rest = lex_seq(s.drop_last());
        if is_command(s.last()) {
            assert(char_of(token_of(s.last())) == s.last());
            assert(source_of(rest.push(token_of(s.last()))) == source_of(rest).push(s.last()));
        }
    }
}

} // verus!
