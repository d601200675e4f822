use vstd::prelude::*;

verus! {

/// One lexical token of a source file: the syntactic category as a small
/// integer, the original spelling (for diagnostics only), and the 1-based
/// position of its first character.
#[derive(Clone, Debug, PartialEq)]
pub struct Token {
    pub kind: u8,
    pub spelling: String,
    pub line: u32,
    pub column: u32,
}

/// A token stream is well formed when line numbers never decrease along
/// the stream: what the line mapper relies on.
pub open spec fn wf_tokens(tokens: Seq<Token>) -> bool {
    forall|i: int, j: int|
        0 <= i <= j < tokens.len() ==> #[trigger] tokens[i].line <= #[trigger] tokens[j].line
}

/// The kind byte of each token, in order: the sequence that all matching
/// works on.
pub open spec fn kinds_of(tokens: Seq<Token>) -> Seq<u8> {
    tokens.map(|_i: int, t: Token| t.kind)
}

/// Project a token slice to its kind bytes.
pub fn kinds(tokens: &[Token]) -> (r: Vec<u8>)
    ensures
        r@ == kinds_of(tokens@),
{
    let mut r: Vec<u8> = Vec::new();
    let mut i: usize = 0;
    while i < tokens.len()
        invariant
            i <= tokens@.len(),
            r@ == kinds_of(tokens@).subrange(0, i as int),
        decreases tokens@.len() - i,
    {
        r.push(tokens[i].kind);
        i += 1;
        proof {
            assert(r@ =~= kinds_of(tokens@).subrange(0, i as int));
        }
    }
    proof {
        assert(r@ =~= kinds_of(tokens@));
    }
    r
}

} // verus!
