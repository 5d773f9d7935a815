//! The command tokenizer: one line of user input split into its terms.
//!
//! The line is trimmed, split on single spaces (so doubled spaces yield
//! empty terms), each term trimmed again, and a leading `:` on the first
//! term removed.

use vstd::prelude::*;

use crate::text::{split_seq, trim_seq, trim_chars, split_chars, str_chars, string_from_chars,
    lemma_split_len};

verus! {

/// The terms a line of input denotes.
pub open spec fn command_terms(input: Seq<char>) -> Seq<Seq<char>> {
    let ts = split_seq(trim_seq(input), ' ').map_values(|t: Seq<char>| trim_seq(t));
    if ts[0].len() > 0 && ts[0][0] == ':' {
        ts.update(0, ts[0].drop_first())
    } else {
        ts
    }
}

/// A tokenized command line.
pub struct Command {
    terms: Vec<String>,
}

impl View for Command {
    type V = Seq<Seq<char>>;

    closed spec fn view(&self) -> Seq<Seq<char>> {
        self.terms@.map_values(|s: String| s@)
    }
}

impl Command {
    /// Tokenize a line of input. There is always at least one term.
    pub fn from(input_line: &str) -> (r: Command)
        ensures
            r@ == command_terms(input_line@),
            r@.len() >= 1,
    {
        let chars = str_chars(input_line);
        let trimmed = trim_chars(&chars);
        let pieces = split_chars(&trimmed, ' ');
        let ghost piecesv = pieces.deep_view();
        let mut terms: Vec<String> = Vec::new();
        let mut i: usize = 0;
        while i < pieces.len()
            invariant
                piecesv == pieces.deep_view(),
                i <= pieces@.len(),
                pieces@.len() == piecesv.len(),
                terms@.len() == i,
                forall|j: int| 0 <= j < i ==> (#[trigger] terms@[j])@ == trim_seq(piecesv[j]),
            decreases pieces@.len() - i,
        {
            proof {
                assert(piecesv[i as int] =~= pieces@[i as int]@);
            }
            let t = trim_chars(&pieces[i]);
            terms.push(string_from_chars(&t));
            i += 1;
        }
        proof {
            lemma_split_len(trimmed@, ' ');
        }
        let ghost ts = split_seq(trim_seq(chars@), ' ').map_values(|t: Seq<char>| trim_seq(t));
        assert(terms@.map_values(|s: String| s@) =~~= ts);
        // Remove a leading ':' from the first term.
        let first_len: usize = terms[0].as_str().unicode_len();
        if first_len > 0 && terms[0].as_str().get_char(0) == ':' {
            let stripped = String::from_str(terms[0].as_str().substring_char(1, first_len));
            terms.set(0, stripped);
            let r = Command { terms };
            assert(ts[0].drop_first() =~= ts[0].subrange(1, ts[0].len() as int));
            assert(r@ =~~= command_terms(input_line@));
            return r;
        }
        let r = Command { terms };
        assert(r@ =~~= command_terms(input_line@));
        r
    }

    /// The number of terms.
    pub fn len(&self) -> (r: usize)
        ensures
            r == self@.len(),
    {
        self.terms.len()
    }

    /// Get a term of the command, 0-indexed.
    pub fn term(&self, i: usize) -> (r: &str)
        requires
            i < self@.len(),
        ensures
            r@ == self@[i as int],
    {
        self.terms[i].as_str()
    }
}

} // verus!
