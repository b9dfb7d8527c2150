//! Token trees as the attribute rewrite sees them, and their mathematical model.
//!
//! A [`TokenTree`] holds as plain values what the rewrite reads of a token:
//! its kind, its text, a group's delimiter and contents, a punctuation
//! character's spacing. A token's span is carried as an index into a table
//! that the caller keeps (`None` for the call site, which is where the tokens
//! that the rewrite creates stand).
use vstd::prelude::*;

verus! {

/// The delimiter of a group.
#[derive(Clone, Copy, PartialEq, Eq, Structural, Debug)]
pub enum Delimiter {
    /// `( ... )`
    Parenthesis,
    /// `{ ... }`
    Brace,
    /// `[ ... ]`
    Bracket,
    /// A group without visible delimiters.
    Invisible,
}

/// Whether a punctuation character is joined to the one that follows it.
#[derive(Clone, Copy, PartialEq, Eq, Structural, Debug)]
pub enum Spacing {
    Alone,
    Joint,
}

/// A token tree: a delimited group of token trees, or a single token.
#[derive(Debug, PartialEq, Eq)]
pub enum TokenTree {
    Group { delimiter: Delimiter, stream: Vec<TokenTree>, span: Option<usize> },
    Ident { name: String, span: Option<usize> },
    Punct { ch: char, spacing: Spacing, span: Option<usize> },
    Literal { text: String, span: Option<usize> },
}

/// The mathematical model of a [`TokenTree`]: texts are character
/// sequences and a group's contents a sequence of models.
pub enum TokenModel {
    Group { delimiter: Delimiter, stream: Seq<TokenModel>, span: Option<usize> },
    Ident { name: Seq<char>, span: Option<usize> },
    Punct { ch: char, spacing: Spacing, span: Option<usize> },
    Literal { text: Seq<char>, span: Option<usize> },
}

/// The model of a token tree.
pub open spec fn token_model(t: TokenTree) -> TokenModel
    decreases t,
{
    match t {
        TokenTree::Group { delimiter, stream, span } => TokenModel::Group {
            delimiter,
            stream: stream_model(stream@),
            span,
        },
        TokenTree::Ident { name, span } => TokenModel::Ident { name: name@, span },
        TokenTree::Punct { ch, spacing, span } => TokenModel::Punct { ch, spacing, span },
        TokenTree::Literal { text, span } => TokenModel::Literal { text: text@, span },
    }
}

/// The model of a sequence of token trees, token by token.
pub open spec fn stream_model(s: Seq<TokenTree>) -> Seq<TokenModel>
    decreases s,
{
    if s.len() == 0 {
        Seq::empty()
    } else {
        stream_model(s.drop_last()).push(token_model(s.last()))
    }
}

impl View for TokenTree {
    type V = TokenModel;

    open spec fn view(&self) -> TokenModel {
        token_model(*self)
    }
}

/// The models of a sequence of token sequences.
pub open spec fn streams_model(v: Seq<Vec<TokenTree>>) -> Seq<Seq<TokenModel>> {
    v.map_values(|x: Vec<TokenTree>| stream_model(x@))
}

/// `stream_model` keeps the length and maps each token to its model.
pub proof fn lemma_stream_model(s: Seq<TokenTree>)
    ensures
        stream_model(s).len() == s.len(),
        forall|i: int| 0 <= i < s.len() ==> #[trigger] stream_model(s)[i] == token_model(s[i]),
    decreases s.len(),
{
    if s.len() > 0 {
        lemma_stream_model(s.drop_last());
    }
}

/// The model of a concatenation is the concatenation of the models.
pub proof fn lemma_stream_model_add(a: Seq<TokenTree>, b: Seq<TokenTree>)
    ensures
        stream_model(a + b) == stream_model(a) + stream_model(b),
{
    lemma_stream_model(a);
    lemma_stream_model(b);
    lemma_stream_model(a + b);
    assert(stream_model(a + b) =~= stream_model(a) + stream_model(b));
}

/// The model of a pushed sequence is the pushed model.
pub proof fn lemma_stream_model_push(a: Seq<TokenTree>, t: TokenTree)
    ensures
        stream_model(a.push(t)) == stream_model(a).push(token_model(t)),
{
    assert(a.push(t).drop_last() =~= a);
}

/// The model of a subrange is the subrange of the model.
pub proof fn lemma_stream_model_subrange(a: Seq<TokenTree>, i: int, j: int)
    requires
        0 <= i <= j <= a.len(),
    ensures
        stream_model(a.subrange(i, j)) == stream_model(a).subrange(i, j),
{
    lemma_stream_model(a);
    lemma_stream_model(a.subrange(i, j));
    assert(stream_model(a.subrange(i, j)) =~= stream_model(a).subrange(i, j));
}

/// Nesting depth of a token: 0 for a single token, one more than its
/// contents for a group.
pub open spec fn token_height(t: TokenModel) -> nat
    decreases t,
{
    match t {
        TokenModel::Group { stream, .. } => 1 + stream_height(stream),
        _ => 0,
    }
}

/// The greatest nesting depth of the tokens of a sequence.
pub open spec fn stream_height(s: Seq<TokenModel>) -> nat
    decreases s,
{
    if s.len() == 0 {
        0
    } else {
        let a = stream_height(s.drop_last());
        let b = token_height(s.last());
        if a < b {
            b
        } else {
            a
        }
    }
}

/// No token of a sequence is deeper than the sequence.
pub proof fn lemma_stream_height_bounds(s: Seq<TokenModel>)
    ensures
        forall|i: int| 0 <= i < s.len() ==> token_height(#[trigger] s[i]) <= stream_height(s),
    decreases s.len(),
{
    if s.len() > 0 {
        lemma_stream_height_bounds(s.drop_last());
        assert forall|i: int| 0 <= i < s.len() implies token_height(#[trigger] s[i])
            <= stream_height(s) by {
            if i < s.len() - 1 {
                assert(s[i] == s.drop_last()[i]);
            }
        }
    }
}

/// A sequence whose tokens are all at most `h` deep is at most `h` deep.
pub proof fn lemma_stream_height_at_most(s: Seq<TokenModel>, h: nat)
    requires
        forall|i: int| 0 <= i < s.len() ==> token_height(#[trigger] s[i]) <= h,
    ensures
        stream_height(s) <= h,
    decreases s.len(),
{
    if s.len() > 0 {
        assert forall|i: int| 0 <= i < s.drop_last().len() implies token_height(
            #[trigger] s.drop_last()[i],
        ) <= h by {
            assert(s.drop_last()[i] == s[i]);
        }
        lemma_stream_height_at_most(s.drop_last(), h);
    }
}

} // verus!
