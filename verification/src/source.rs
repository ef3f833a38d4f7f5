//! Token sources: where a cursor takes its tokens from.

use vstd::prelude::*;
use crate::token::{tokens_view, Token, XmlToken};

verus! {

/// A finite, forward-only sequence of tokens that hands out one token per
/// call and never goes back.
pub trait TokenSource {
    /// The tokens not yet handed out, in the order in which they will come.
    spec fn remaining(&self) -> Seq<Token>;

    /// Hands out the next token, or `None` at the end of the stream.
    fn next_token(&mut self) -> (token: Option<XmlToken>)
        ensures
            match token {
                Some(t) => {
                    &&& old(self).remaining().len() > 0
                    &&& t@ == old(self).remaining()[0]
                    &&& final(self).remaining() == old(self).remaining().skip(1)
                },
                None => {
                    &&& old(self).remaining().len() == 0
                    &&& final(self).remaining().len() == 0
                },
            },
    ;
}

/// A token source over tokens that are already in memory.
pub struct TokenList {
    /// The tokens still to come, last one first.
    reversed: Vec<XmlToken>,
}

impl TokenList {
    /// A source that hands out `tokens` from first to last.
    pub fn new(tokens: Vec<XmlToken>) -> (list: TokenList)
        ensures
            list.remaining() == tokens_view(tokens@),
    {
        let ghost all = tokens@;
        let mut tokens = tokens;
        let mut reversed: Vec<XmlToken> = Vec::new();
        while tokens.len() > 0
            invariant
                tokens@.len() <= all.len(),
                tokens@ == all.subrange(0, tokens@.len() as int),
                reversed@.len() == all.len() - tokens@.len(),
                forall|i: int|
                    0 <= i < reversed@.len() ==> reversed@[i] == all[all.len() - 1 - i],
            decreases tokens@.len(),
        {
            let last = tokens.pop();
            match last {
                Some(token) => {
                    reversed.push(token);
                },
                None => {},
            }
        }
        let list = TokenList { reversed };
        assert(list.remaining() =~= tokens_view(all));
        list
    }
}

impl TokenSource for TokenList {
    closed spec fn remaining(&self) -> Seq<Token> {
        tokens_view(self.reversed@).reverse()
    }

    fn next_token(&mut self) -> (token: Option<XmlToken>) {
        let token = self.reversed.pop();
        proof {
            if old(self).reversed@.len() > 0 {
                assert(self.remaining() =~= old(self).remaining().skip(1));
            }
        }
        token
    }
}

} // verus!
