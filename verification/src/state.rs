//! The state of one parse: the sentence, a stack and a buffer of token
//! indices, and the arcs that were built.

use std::collections::VecDeque;
use vstd::prelude::*;
use vstd::std_specs::vecdeque::VecDequeAdditionalSpecFns;
use crate::dependency::{attachments, copy_heads, lemma_attachments_update, Dependency, DependencySet};
use crate::error::Error;
use crate::laws::lemma_initial_consistent;
use crate::model::{initial, swap_limit, Configuration, SystemKind};

verus! {

/// A token of a sentence. Transition systems do not look into it; guides and
/// collectors do.
#[derive(Debug)]
pub struct Token {
    form: String,
    tag: String,
}

impl Token {
    /// A token with its word form and its part-of-speech tag.
    pub fn new(form: String, tag: String) -> (token: Token)
        ensures
            token.spec_form() == form@,
            token.spec_tag() == tag@,
    {
        Token { form, tag }
    }

    pub closed spec fn spec_form(&self) -> Seq<char> {
        self.form@
    }

    pub closed spec fn spec_tag(&self) -> Seq<char> {
        self.tag@
    }

    /// The word form.
    pub fn form(&self) -> (form: &String)
        ensures
            form@ == self.spec_form(),
    {
        &self.form
    }

    /// The part-of-speech tag.
    pub fn tag(&self) -> (tag: &String)
        ensures
            tag@ == self.spec_tag(),
    {
        &self.tag
    }
}

impl Clone for Token {
    fn clone(&self) -> (copy: Self)
        ensures
            copy == *self,
    {
        Token { form: self.form.clone(), tag: self.tag.clone() }
    }
}

/// Token indices as natural numbers.
pub open spec fn as_tokens(indices: Seq<usize>) -> Seq<nat> {
    Seq::new(indices.len(), |i: int| indices[i] as nat)
}

/// The state of one parse. Tokens are numbered from 1 in sentence order.
#[derive(Debug)]
pub struct ParserState {
    tokens: Vec<Token>,
    stack: Vec<usize>,
    buffer: VecDeque<usize>,
    heads: Vec<Option<Dependency>>,
    swaps: u128,
}

impl View for ParserState {
    type V = Configuration;

    closed spec fn view(&self) -> Configuration {
        Configuration {
            tokens: self.tokens.len() as nat,
            stack: as_tokens(self.stack@),
            buffer: as_tokens(self.buffer@),
            arcs: attachments(self.heads@),
            swaps: self.swaps as nat,
        }
    }
}

impl ParserState {
    /// The table of heads has an entry for each token.
    pub closed spec fn sound(&self) -> bool {
        self.heads.len() == self.tokens.len()
    }

    /// Every index that the state holds is a token of its sentence.
    pub open spec fn wf(&self) -> bool {
        self.sound() && self@.well_formed()
    }

    /// The sentence.
    pub closed spec fn sentence(&self) -> Seq<Token> {
        self.tokens@
    }

    /// The state from which the parse of `sentence` starts: every token in
    /// the buffer, in sentence order, and nothing else.
    pub fn new(sentence: &[Token]) -> (state: ParserState)
        ensures
            state.wf(),
            state@ == initial(sentence@.len()),
            forall|kind: SystemKind| state@.consistent(kind),
            state.sentence() == sentence@,
    {
        let n = sentence.len();
        let mut tokens: Vec<Token> = Vec::new();
        let mut buffer: VecDeque<usize> = VecDeque::new();
        let mut heads: Vec<Option<Dependency>> = Vec::new();
        let mut t: usize = 0;
        while t < n
            invariant
                t <= n,
                n == sentence@.len(),
                buffer.len() == t,
                heads.len() == t,
                tokens@ == sentence@.subrange(0, t as int),
                forall|i: int| 0 <= i < t ==> buffer[i] == i + 1,
                forall|i: int| 0 <= i < t ==> heads[i] is None,
            decreases n - t,
        {
            tokens.push(sentence[t].clone());
            assert(tokens@ =~= sentence@.subrange(0, t + 1));
            t += 1;
            buffer.push_back(t);
            heads.push(None);
        }
        assert(tokens@ =~= sentence@);
        let state = ParserState { tokens, stack: Vec::new(), buffer, heads, swaps: 0 };
        proof {
            let c = initial(n as nat);
            assert(state@.stack =~= c.stack);
            assert(state@.buffer =~= c.buffer);
            assert(state@.arcs =~= c.arcs);
            assert forall|kind: SystemKind| state@.consistent(kind) by {
                lemma_initial_consistent(kind, n as nat);
            }
        }
        state
    }

    /// The number of tokens of the sentence.
    pub fn len(&self) -> (n: usize)
        ensures
            n == self@.tokens,
    {
        self.tokens.len()
    }

    /// The tokens of the sentence; token `t` is at index `t - 1`.
    pub fn tokens(&self) -> (tokens: &Vec<Token>)
        ensures
            tokens@ == self.sentence(),
            tokens.len() == self@.tokens,
    {
        &self.tokens
    }

    /// The number of tokens on the stack.
    pub fn stack_len(&self) -> (n: usize)
        ensures
            n == self@.stack.len(),
    {
        self.stack.len()
    }

    /// The number of tokens in the buffer.
    pub fn buffer_len(&self) -> (n: usize)
        ensures
            n == self@.buffer.len(),
    {
        self.buffer.len()
    }

    /// The number of swaps that were applied.
    pub fn swaps(&self) -> (n: u128)
        ensures
            n == self@.swaps,
    {
        self.swaps
    }

    /// The stack token `depth` places below the top; depth 0 is the top.
    pub fn peek_stack(&self, depth: usize) -> (token: Option<usize>)
        ensures
            token == if depth < self@.stack.len() {
                Some(self@.stack[self@.stack.len() - 1 - depth] as usize)
            } else {
                None
            },
            token matches Some(t) ==> t == self@.stack[self@.stack.len() - 1 - depth],
    {
        if depth < self.stack.len() {
            Some(self.stack[self.stack.len() - 1 - depth])
        } else {
            None
        }
    }

    /// The next token of the buffer.
    pub fn peek_buffer_front(&self) -> (token: Option<usize>)
        ensures
            token == if self@.buffer.len() > 0 {
                Some(self@.buffer[0] as usize)
            } else {
                None
            },
            token matches Some(t) ==> t == self@.buffer[0],
    {
        if self.buffer.len() > 0 {
            Some(self.buffer[0])
        } else {
            None
        }
    }

    /// The buffer token `depth` places behind the front; depth 0 is the front.
    pub fn peek_buffer(&self, depth: usize) -> (token: Option<usize>)
        ensures
            token == if depth < self@.buffer.len() {
                Some(self@.buffer[depth as int] as usize)
            } else {
                None
            },
            token matches Some(t) ==> t == self@.buffer[depth as int],
    {
        if depth < self.buffer.len() {
            Some(self.buffer[depth])
        } else {
            None
        }
    }

    /// Puts `token` on the stack.
    pub fn push_stack(&mut self, token: usize) -> (done: Result<(), Error>)
        requires
            old(self).wf(),
        ensures
            final(self).wf(),
            final(self).sentence() == old(self).sentence(),
            done == if 1 <= token <= old(self)@.tokens {
                Ok::<(), Error>(())
            } else {
                Err(Error::UnknownToken)
            },
            final(self)@ == if done is Ok {
                Configuration { stack: old(self)@.stack.push(token as nat), ..old(self)@ }
            } else {
                old(self)@
            },
    {
        if token == 0 || token > self.tokens.len() {
            return Err(Error::UnknownToken);
        }
        self.stack.push(token);
        assert(as_tokens(self.stack@) =~= as_tokens(old(self).stack@).push(token as nat));
        Ok(())
    }

    /// Takes the top token off the stack.
    pub fn pop_stack(&mut self) -> (token: Option<usize>)
        requires
            old(self).wf(),
        ensures
            final(self).wf(),
            final(self).sentence() == old(self).sentence(),
            token == if old(self)@.stack.len() > 0 {
                Some(old(self)@.top() as usize)
            } else {
                None
            },
            token matches Some(t) ==> t == old(self)@.top(),
            final(self)@ == if token is Some {
                Configuration { stack: old(self)@.stack.drop_last(), ..old(self)@ }
            } else {
                old(self)@
            },
    {
        let token = self.stack.pop();
        if token.is_some() {
            assert(as_tokens(self.stack@) =~= as_tokens(old(self).stack@).drop_last());
        }
        token
    }

    /// Takes the next token out of the buffer.
    pub fn pop_buffer_front(&mut self) -> (token: Option<usize>)
        requires
            old(self).wf(),
        ensures
            final(self).wf(),
            final(self).sentence() == old(self).sentence(),
            token == if old(self)@.buffer.len() > 0 {
                Some(old(self)@.front() as usize)
            } else {
                None
            },
            token matches Some(t) ==> t == old(self)@.front(),
            final(self)@ == if token is Some {
                Configuration { buffer: old(self)@.buffer.drop_first(), ..old(self)@ }
            } else {
                old(self)@
            },
    {
        let token = self.buffer.pop_front();
        if token.is_some() {
            assert(as_tokens(self.buffer@) =~= as_tokens(old(self).buffer@).drop_first());
        }
        token
    }

    /// Puts `token` back in front of the buffer and counts one swap; done
    /// only while the swaps are below their limit.
    pub fn push_buffer_front(&mut self, token: usize) -> (done: Result<(), Error>)
        requires
            old(self).wf(),
        ensures
            final(self).wf(),
            final(self).sentence() == old(self).sentence(),
            done == if !(1 <= token <= old(self)@.tokens) {
                Err::<(), Error>(Error::UnknownToken)
            } else if old(self)@.swaps >= swap_limit(old(self)@.tokens) {
                Err(Error::IllegalTransition)
            } else {
                Ok(())
            },
            final(self)@ == if done is Ok {
                Configuration {
                    buffer: seq![token as nat] + old(self)@.buffer,
                    swaps: old(self)@.swaps + 1,
                    ..old(self)@
                }
            } else {
                old(self)@
            },
    {
        if token == 0 || token > self.tokens.len() {
            return Err(Error::UnknownToken);
        }
        if !self.may_swap() {
            return Err(Error::IllegalTransition);
        }
        assert(swap_limit(self@.tokens) <= 0xffff_ffff_ffff_ffff * 0xffff_ffff_ffff_ffff)
            by (nonlinear_arith)
            requires
                self@.tokens <= 0xffff_ffff_ffff_ffff,
        ;
        self.buffer.push_front(token);
        self.swaps = self.swaps + 1;
        assert(as_tokens(self.buffer@) =~= seq![token as nat] + as_tokens(old(self).buffer@));
        Ok(())
    }

    /// Whether the swaps are below their limit.
    pub fn may_swap(&self) -> (below: bool)
        requires
            self.wf(),
        ensures
            below == (self@.swaps < swap_limit(self@.tokens)),
    {
        let n: u128 = self.tokens.len() as u128;
        if n == 0 {
            assert(swap_limit(0) == 0) by (nonlinear_arith);
            return false;
        }
        assert(n * (n - 1) <= 0xffff_ffff_ffff_ffff * 0xffff_ffff_ffff_ffff) by (nonlinear_arith)
            requires
                1 <= n <= 0xffff_ffff_ffff_ffff,
        ;
        let limit: u128 = n * (n - 1) / 2;
        self.swaps < limit
    }

    /// Whether `token` has a head.
    pub fn is_attached(&self, token: usize) -> (attached: bool)
        requires
            self.wf(),
        ensures
            attached == self@.attached(token as nat),
    {
        token >= 1 && token <= self.heads.len() && self.heads[token - 1].is_some()
    }

    /// The head of `token` and the relation, if it has a head.
    pub fn head(&self, token: usize) -> (found: Option<&Dependency>)
        requires
            self.wf(),
        ensures
            match found {
                Some(d) => self@.attached(token as nat) && self@.arcs[token as nat] == d@,
                None => !self@.attached(token as nat),
            },
    {
        if token >= 1 && token <= self.heads.len() {
            self.heads[token - 1].as_ref()
        } else {
            None
        }
    }

    /// Adds the arc from `head` to `modifier`. A token has one head: the arc
    /// of a token that has one is never replaced.
    pub fn add_arc(&mut self, modifier: usize, head: usize, label: String) -> (done: Result<
        (),
        Error,
    >)
        requires
            old(self).wf(),
        ensures
            final(self).wf(),
            final(self).sentence() == old(self).sentence(),
            done == if !(1 <= modifier <= old(self)@.tokens && 1 <= head <= old(self)@.tokens) {
                Err::<(), Error>(Error::UnknownToken)
            } else if old(self)@.attached(modifier as nat) {
                Err(Error::AlreadyAttached)
            } else {
                Ok(())
            },
            final(self)@ == if done is Ok {
                Configuration {
                    arcs: old(self)@.arcs.insert(modifier as nat, (head as nat, label@)),
                    ..old(self)@
                }
            } else {
                old(self)@
            },
    {
        let n = self.tokens.len();
        if modifier == 0 || modifier > n || head == 0 || head > n {
            return Err(Error::UnknownToken);
        }
        if self.heads[modifier - 1].is_some() {
            return Err(Error::AlreadyAttached);
        }
        let d = Dependency { head, relation: label };
        proof {
            lemma_attachments_update(self.heads@, modifier as nat, d);
        }
        self.heads.set(modifier - 1, Some(d));
        Ok(())
    }

    /// The arcs that were built, as a set of their own.
    pub fn to_dependency_set(&self) -> (set: DependencySet)
        requires
            self.wf(),
        ensures
            set@ == self@.arcs,
            set.size() == self@.tokens,
    {
        DependencySet::from_heads(copy_heads(&self.heads))
    }
}

} // verus!
