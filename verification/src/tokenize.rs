//! The tokenizer: splits one line of input on a delimiter character into
//! a command name (the first token) and its arguments (the rest).
use vstd::prelude::*;

use crate::errors::EmptyInputError;
use crate::registry::CLI;

verus! {

/// The tokens of `s` split on every occurrence of `d`: the substrings
/// between delimiters, in order, delimiters discarded, empty substrings
/// kept. Always at least one token.
pub open spec fn split_spec(s: Seq<char>, d: char) -> Seq<Seq<char>>
    decreases s.len(),
{
    if s.len() == 0 {
        seq![Seq::<char>::empty()]
    } else {
        let rest = split_spec(s.drop_last(), d);
        if s.last() == d {
            rest.push(Seq::empty())
        } else {
            rest.update(rest.len() - 1, rest.last().push(s.last()))
        }
    }
}

pub proof fn lemma_split_nonempty(s: Seq<char>, d: char)
    ensures
        split_spec(s, d).len() >= 1,
    decreases s.len(),
{
    if s.len() > 0 {
        lemma_split_nonempty(s.drop_last(), d);
    }
}

/// All tokens of `input` split on `delimiter`.
fn split_line(input: &str, delimiter: char) -> (r: Vec<String>)
    ensures
        r@.len() == split_spec(input@, delimiter).len(),
        forall|i: int| 0 <= i < r@.len() ==> r@[i]@ == split_spec(input@, delimiter)[i],
{
    let n = input.unicode_len();
    let mut r: Vec<String> = Vec::new();
    let mut start: usize = 0;
    let mut i: usize = 0;
    proof {
        lemma_split_nonempty(input@, delimiter);
    }
    while i < n
        invariant
            n == input@.len(),
            0 <= start <= i <= n,
            split_spec(input@.take(i as int), delimiter).len() == r@.len() + 1,
            forall|j: int|
                0 <= j < r@.len() ==> r@[j]@ == split_spec(input@.take(i as int), delimiter)[j],
            split_spec(input@.take(i as int), delimiter).last()
                == input@.subrange(start as int, i as int),
        decreases n - i,
    {
        let ghost pre = split_spec(input@.take(i as int), delimiter);
        proof {
            assert(input@.take(i + 1).drop_last() =~= input@.take(i as int));
            assert(input@.take(i + 1).last() == input@[i as int]);
        }
        let c = input.get_char(i);
        if c == delimiter {
            let tok = input.substring_char(start, i).to_owned();
            proof {
                assert(split_spec(input@.take(i + 1), delimiter) =~= pre.push(Seq::empty()));
            }
            r.push(tok);
            start = i + 1;
            proof {
                assert(input@.subrange(start as int, i + 1) =~= Seq::<char>::empty());
            }
        } else {
            proof {
                assert(split_spec(input@.take(i + 1), delimiter)
                    =~= pre.update(pre.len() - 1, pre.last().push(input@[i as int])));
                assert(input@.subrange(start as int, i + 1)
                    =~= input@.subrange(start as int, i as int).push(input@[i as int]));
            }
        }
        i += 1;
    }
    let tok = input.substring_char(start, n).to_owned();
    proof {
        assert(input@.take(n as int) =~= input@);
    }
    r.push(tok);
    r
}

/// Parses one line: the first token is the command name, the remaining
/// tokens are its arguments, in order. An empty line is rejected.
pub fn tokenize(input: &str, delimiter: char) -> (r: Result<(String, Vec<String>), EmptyInputError>)
    ensures
        r is Err <==> input@.len() == 0,
        r matches Ok(p) ==> {
            let toks = split_spec(input@, delimiter);
            &&& p.0@ == toks[0]
            &&& p.1@.len() == toks.len() - 1
            &&& forall|i: int| 0 <= i < p.1@.len() ==> p.1@[i]@ == toks[i + 1]
        },
{
    if input.unicode_len() == 0 {
        return Err(EmptyInputError);
    }
    proof {
        lemma_split_nonempty(input@, delimiter);
    }
    let mut toks = split_line(input, delimiter);
    let command = toks.remove(0);
    Ok((command, toks))
}

impl<H> CLI<H> {
    /// The tokens of `input` after the first: the arguments of the line.
    pub fn args_from_input(input: &String, delimiter: &char) -> (r: Vec<String>)
        ensures
            r@.len() == split_spec(input@, *delimiter).len() - 1,
            forall|i: int| 0 <= i < r@.len() ==> r@[i]@ == split_spec(input@, *delimiter)[i + 1],
    {
        proof {
            lemma_split_nonempty(input@, *delimiter);
        }
        let mut toks = split_line(input.as_str(), *delimiter);
        let _ = toks.remove(0);
        toks
    }

    /// The first token of `input`: the command name of the line.
    pub fn question_from_input(input: &String, delimiter: &char) -> (r: String)
        ensures
            r@ == split_spec(input@, *delimiter)[0],
    {
        proof {
            lemma_split_nonempty(input@, *delimiter);
        }
        let toks = split_line(input.as_str(), *delimiter);
        let first = &toks[0];
        first.clone()
    }
}

} // verus!
