//! The sequence of sources: one per token, or standard input alone.
use vstd::prelude::*;

verus! {

/// The token that stands for standard input.
pub open spec fn stdin_token() -> Seq<char> {
    seq!['-']
}

/// The tokens that the reader walks for the given arguments: the arguments themselves, or the
/// single token "-" when there are none.
pub open spec fn tokens_for(args: Seq<Seq<char>>) -> Seq<Seq<char>> {
    if args.len() == 0 {
        seq![stdin_token()]
    } else {
        args
    }
}

/// The kind of a source.
#[derive(PartialEq, Eq, Structural, Clone, Copy, Debug)]
pub enum SourceKind {
    /// The process's standard input.
    StandardInput,
    /// A file, named by the token.
    File,
}

/// What kind of source a token names: standard input for "-", a file for anything else.
pub open spec fn kind_of(token: Seq<char>) -> SourceKind {
    if token == stdin_token() {
        SourceKind::StandardInput
    } else {
        SourceKind::File
    }
}

/// The views of a list of strings.
pub open spec fn views_of(v: Seq<String>) -> Seq<Seq<char>> {
    v.map_values(|s: String| s@)
}

/// Tells which kind of source `token` names.
pub fn source_kind(token: &String) -> (r: SourceKind)
    ensures
        r == kind_of(token@),
{
    let lit = "-";
    proof {
        reveal_strlit("-");
        assert(lit@ =~= stdin_token());
    }
    let dash: String = lit.to_owned();
    if *token == dash {
        SourceKind::StandardInput
    } else {
        SourceKind::File
    }
}

/// The tokens that the reader walks for the command-line arguments `args` (without the program
/// name): `args` as they are, or the single token "-" when `args` is empty.
pub fn source_tokens(args: Vec<String>) -> (r: Vec<String>)
    ensures
        views_of(r@) == tokens_for(views_of(args@)),
{
    if args.len() == 0 {
        let lit = "-";
        proof {
            reveal_strlit("-");
            assert(lit@ =~= stdin_token());
        }
        let mut r: Vec<String> = Vec::new();
        r.push(lit.to_owned());
        assert(views_of(r@) =~= seq![stdin_token()]);
        r
    } else {
        args
    }
}

} // verus!
