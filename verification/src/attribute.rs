//! The token rewrite behind `#[serde_tristate]`.
//!
//! The attribute goes on a struct or an enum. It puts
//! `#[serde(default, skip_serializing_if = "Tristate::is_undefined")]` in
//! front of every field whose type is `Tristate<..>`, in the struct's body and
//! in the bodies of enum variants with named fields, so that an absent field
//! reads as `Undefined` and an `Undefined` field is left out when written.
use vstd::prelude::*;
use crate::token::{
    lemma_stream_height_at_most, lemma_stream_height_bounds, lemma_stream_model,
    lemma_stream_model_add, lemma_stream_model_push, lemma_stream_model_subrange, stream_height,
    stream_model, streams_model, token_height, token_model, Delimiter, Spacing, TokenModel,
    TokenTree,
};

verus! {

// ---------------------------------------------------------------------------
// Splitting a body at its top-level commas
// ---------------------------------------------------------------------------

/// Whether `t` is the punctuation character `c`.
pub open spec fn is_punct(t: TokenModel, c: char) -> bool {
    t matches TokenModel::Punct { ch, .. } && ch == c
}

/// Whether `t` is a `-` joined to the token that follows it, as in the arrow
/// `->`.
pub open spec fn is_joint_dash(t: TokenModel) -> bool {
    t matches TokenModel::Punct { ch, spacing, .. } && ch == '-' && spacing == Spacing::Joint
}

/// Angle-bracket depth after `t`, starting at depth `d`, where `after_dash`
/// tells whether the token before `t` is a joint `-`: `<` opens, `>` closes
/// (never below zero) unless it ends an arrow `->`.
pub open spec fn depth_step(d: nat, t: TokenModel, after_dash: bool) -> nat {
    if is_punct(t, '<') {
        d + 1
    } else if is_punct(t, '>') && !after_dash {
        if d > 0 {
            (d - 1) as nat
        } else {
            0
        }
    } else {
        d
    }
}

/// Where a left-to-right split of a token sequence stands: the items already
/// closed by a comma, the item being read, whether the last token read was a
/// separating comma, the angle-bracket depth, and whether the last token read
/// was a joint `-`.
pub struct SplitState {
    pub done: Seq<Seq<TokenModel>>,
    pub current: Seq<TokenModel>,
    pub trailing_comma: bool,
    pub depth: nat,
    pub after_dash: bool,
}

/// Whether `t`, read at angle-bracket depth `depth`, separates two items.
pub open spec fn is_separator(depth: nat, t: TokenModel) -> bool {
    is_punct(t, ',') && depth == 0
}

/// The split after one more token.
pub open spec fn split_step(st: SplitState, t: TokenModel) -> SplitState {
    if is_separator(st.depth, t) {
        SplitState {
            done: st.done.push(st.current),
            current: Seq::empty(),
            trailing_comma: true,
            depth: st.depth,
            after_dash: false,
        }
    } else {
        SplitState {
            done: st.done,
            current: st.current.push(t),
            trailing_comma: false,
            depth: depth_step(st.depth, t, st.after_dash),
            after_dash: is_joint_dash(t),
        }
    }
}

/// The split after the first `n` tokens of `s`.
pub open spec fn split_prefix(s: Seq<TokenModel>, n: nat) -> SplitState
    decreases n,
{
    if n == 0 {
        SplitState {
            done: Seq::empty(),
            current: Seq::empty(),
            trailing_comma: false,
            depth: 0,
            after_dash: false,
        }
    } else {
        split_step(split_prefix(s, (n - 1) as nat), s[n - 1])
    }
}

/// The items of `s` between its top-level commas (commas inside `<..>` do not
/// separate; the `>` of an arrow `->` closes no `<`), with a final empty item dropped, and whether `s` ends with a
/// separating comma.
pub open spec fn split_top_level(s: Seq<TokenModel>) -> (Seq<Seq<TokenModel>>, bool) {
    let st = split_prefix(s, s.len());
    (
        if st.current.len() == 0 {
            st.done
        } else {
            st.done.push(st.current)
        },
        st.trailing_comma,
    )
}

/// The elements of `v` in reverse order.
fn reversed<A>(v: Vec<A>) -> (r: Vec<A>)
    ensures
        r.len() == v.len(),
        forall|j: int| 0 <= j < v.len() ==> #[trigger] r@[j] == v@[v.len() - 1 - j],
{
    let ghost s = v@;
    let mut v = v;
    let mut r: Vec<A> = Vec::new();
    while v.len() > 0
        invariant
            v@ == s.subrange(0, v.len() as int),
            r.len() + v.len() == s.len(),
            forall|j: int| 0 <= j < r.len() ==> #[trigger] r@[j] == s[s.len() - 1 - j],
        decreases v.len(),
    {
        let x = v.pop().unwrap();
        r.push(x);
    }
    r
}

/// Splits a body into its items at the commas that stand outside any `<..>`
/// (the `>` of an arrow `->` closes no `<`), and tells whether it ends with
/// such a comma. An empty final item is
/// dropped; empty items in the middle are kept.
pub fn split_on_commas(stream: Vec<TokenTree>) -> (r: (Vec<Vec<TokenTree>>, bool))
    ensures
        (streams_model(r.0@), r.1) == split_top_level(stream_model(stream@)),
{
    let ghost s = stream@;
    let ghost m = stream_model(s);
    proof {
        lemma_stream_model(s);
    }
    let n = stream.len();
    let mut rev = reversed(stream);
    let mut items: Vec<Vec<TokenTree>> = Vec::new();
    let mut current: Vec<TokenTree> = Vec::new();
    let mut angle_depth: usize = 0;
    let mut trailing_comma = false;
    let mut after_dash = false;
    let mut i: usize = 0;
    while i < n
        invariant
            n == s.len(),
            m == stream_model(s),
            m.len() == s.len(),
            forall|k: int| 0 <= k < s.len() ==> #[trigger] m[k] == token_model(s[k]),
            i <= n,
            rev.len() == n - i,
            forall|j: int| 0 <= j < rev.len() ==> #[trigger] rev@[j] == s[n - 1 - j],
            streams_model(items@) == split_prefix(m, i as nat).done,
            stream_model(current@) == split_prefix(m, i as nat).current,
            trailing_comma == split_prefix(m, i as nat).trailing_comma,
            angle_depth == split_prefix(m, i as nat).depth,
            after_dash == split_prefix(m, i as nat).after_dash,
            angle_depth <= i,
        decreases n - i,
    {
        let tt = rev.pop().unwrap();
        assert(tt == s[i as int]);
        let separates = match &tt {
            TokenTree::Punct { ch, .. } => *ch == ',' && angle_depth == 0,
            _ => false,
        };
        if separates {
            let ghost before = items@;
            items.push(current);
            current = Vec::new();
            trailing_comma = true;
            after_dash = false;
            proof {
                assert(streams_model(items@) =~= streams_model(before).push(
                    split_prefix(m, i as nat).current,
                ));
            }
        } else {
            match &tt {
                TokenTree::Punct { ch, spacing, .. } => {
                    if *ch == '<' {
                        angle_depth = angle_depth + 1;
                    } else if *ch == '>' && !after_dash {
                        angle_depth = if angle_depth > 0 {
                            angle_depth - 1
                        } else {
                            0
                        };
                    }
                    after_dash = *ch == '-' && *spacing == Spacing::Joint;
                },
                _ => {
                    after_dash = false;
                },
            }
            proof {
                lemma_stream_model_push(current@, tt);
            }
            current.push(tt);
            trailing_comma = false;
        }
        i = i + 1;
    }
    if current.len() > 0 {
        let ghost before = items@;
        items.push(current);
        proof {
            assert(streams_model(items@) =~= streams_model(before).push(
                split_prefix(m, n as nat).current,
            ));
        }
    } else {
        proof {
            assert(stream_model(current@) =~= Seq::<TokenModel>::empty());
        }
    }
    (items, trailing_comma)
}


// ---------------------------------------------------------------------------
// Recognising a `Tristate<..>` field
// ---------------------------------------------------------------------------

/// The index of the first single `:` of `t` at or after `i`, where a `::`
/// counts as one path separator and is stepped over whole.
pub open spec fn first_field_colon(t: Seq<TokenModel>, i: int) -> Option<int>
    decreases t.len() - i,
{
    if i < 0 || i >= t.len() {
        Option::None
    } else if is_punct(t[i], ':') {
        if i + 1 < t.len() && is_punct(t[i + 1], ':') {
            first_field_colon(t, i + 2)
        } else {
            Some(i)
        }
    } else {
        first_field_colon(t, i + 1)
    }
}

/// Whether `t` is the identifier `Tristate`.
pub open spec fn is_tristate_name(t: TokenModel) -> bool {
    t matches TokenModel::Ident { name, .. } && name == "Tristate"@
}

/// Whether the identifier `Tristate` followed by `<` stands at `j` in `t`.
pub open spec fn tristate_type_at(t: Seq<TokenModel>, j: int) -> bool {
    0 <= j && j + 1 < t.len() && is_tristate_name(t[j]) && is_punct(t[j + 1], '<')
}

/// Whether the field `t` has a `Tristate<..>` type: `Tristate` followed by `<`
/// stands somewhere after its first single `:`.
pub open spec fn is_tristate_field_model(t: Seq<TokenModel>) -> bool {
    match first_field_colon(t, 0) {
        Some(c) => exists|j: int| c < j && #[trigger] tristate_type_at(t, j),
        Option::None => false,
    }
}

/// Whether the field `tokens` has a `Tristate<..>` type: it looks for
/// `Tristate` followed by `<` after the first single `:` (not `::`).
pub fn is_tristate_field(tokens: &[TokenTree]) -> (b: bool)
    ensures
        b == is_tristate_field_model(stream_model(tokens@)),
{
    let ghost m = stream_model(tokens@);
    proof {
        lemma_stream_model(tokens@);
    }
    let word = String::from_str("Tristate");
    let mut after_colon = false;
    let ghost mut colon: int = 0;
    let mut i: usize = 0;
    while i < tokens.len()
        invariant
            m == stream_model(tokens@),
            m.len() == tokens@.len(),
            forall|k: int| 0 <= k < tokens@.len() ==> #[trigger] m[k] == token_model(tokens@[k]),
            word@ == "Tristate"@,
            i <= tokens.len(),
            !after_colon ==> first_field_colon(m, 0) == first_field_colon(m, i as int),
            after_colon ==> first_field_colon(m, 0) == Some(colon),
            after_colon ==> colon < i,
            after_colon ==> forall|j: int| colon < j < i ==> !#[trigger] tristate_type_at(m, j),
        decreases tokens.len() - i,
    {
        if !after_colon {
            let is_colon = match &tokens[i] {
                TokenTree::Punct { ch, .. } => *ch == ':',
                _ => false,
            };
            if is_colon {
                let next_is_colon = i + 1 < tokens.len() && match &tokens[i + 1] {
                    TokenTree::Punct { ch, .. } => *ch == ':',
                    _ => false,
                };
                if next_is_colon {
                    i = i + 2;
                    continue;
                }
                after_colon = true;
                proof {
                    colon = i as int;
                }
            }
        } else {
            let is_word = match &tokens[i] {
                TokenTree::Ident { name, .. } => *name == word,
                _ => false,
            };
            if is_word {
                let next_is_lt = i + 1 < tokens.len() && match &tokens[i + 1] {
                    TokenTree::Punct { ch, .. } => *ch == '<',
                    _ => false,
                };
                if next_is_lt {
                    assert(tristate_type_at(m, i as int));
                    return true;
                }
            }
            assert(!tristate_type_at(m, i as int));
        }
        i = i + 1;
    }
    proof {
        if after_colon {
            assert forall|j: int| colon < j implies !#[trigger] tristate_type_at(m, j) by {
                if j >= i {
                    assert(!(j + 1 < m.len()));
                }
            }
        }
    }
    false
}

// ---------------------------------------------------------------------------
// Finding a brace-delimited group
// ---------------------------------------------------------------------------

/// Whether `t` is a group delimited by braces.
pub open spec fn is_brace_group(t: TokenModel) -> bool {
    t matches TokenModel::Group { delimiter, .. } && delimiter == Delimiter::Brace
}

/// The index of the first brace-delimited group of `t` at or after `i`.
pub open spec fn first_brace_from(t: Seq<TokenModel>, i: int) -> Option<int>
    decreases t.len() - i,
{
    if i < 0 || i >= t.len() {
        Option::None
    } else if is_brace_group(t[i]) {
        Some(i)
    } else {
        first_brace_from(t, i + 1)
    }
}

/// The index of the first brace-delimited group of `t`.
pub open spec fn first_brace(t: Seq<TokenModel>) -> Option<int> {
    first_brace_from(t, 0)
}

/// The position of the first brace-delimited group of `tokens`, if any.
fn brace_position(tokens: &[TokenTree]) -> (r: Option<usize>)
    ensures
        match r {
            Some(p) => first_brace(stream_model(tokens@)) == Some(p as int),
            Option::None => first_brace(stream_model(tokens@)) is None,
        },
{
    let ghost m = stream_model(tokens@);
    proof {
        lemma_stream_model(tokens@);
    }
    let mut i: usize = 0;
    while i < tokens.len()
        invariant
            m == stream_model(tokens@),
            m.len() == tokens@.len(),
            forall|k: int| 0 <= k < tokens@.len() ==> #[trigger] m[k] == token_model(tokens@[k]),
            i <= tokens.len(),
            first_brace(m) == first_brace_from(m, i as int),
        decreases tokens.len() - i,
    {
        let found = match &tokens[i] {
            TokenTree::Group { delimiter, .. } => *delimiter == Delimiter::Brace,
            _ => false,
        };
        if found {
            return Some(i);
        }
        i = i + 1;
    }
    Option::None
}


// ---------------------------------------------------------------------------
// What the rewrite produces
// ---------------------------------------------------------------------------

/// The comma that the rewrite puts between items.
pub open spec fn comma_model() -> TokenModel {
    TokenModel::Punct { ch: ',', spacing: Spacing::Alone, span: Option::None }
}

/// The tokens of `#[serde(default, skip_serializing_if = "Tristate::is_undefined")]`.
pub open spec fn serde_attribute_model() -> Seq<TokenModel> {
    seq![
        TokenModel::Punct { ch: '#', spacing: Spacing::Alone, span: Option::None },
        TokenModel::Group {
            delimiter: Delimiter::Bracket,
            stream: seq![
                TokenModel::Ident { name: "serde"@, span: Option::None },
                TokenModel::Group {
                    delimiter: Delimiter::Parenthesis,
                    stream: seq![
                        TokenModel::Ident { name: "default"@, span: Option::None },
                        comma_model(),
                        TokenModel::Ident { name: "skip_serializing_if"@, span: Option::None },
                        TokenModel::Punct { ch: '=', spacing: Spacing::Alone, span: Option::None },
                        TokenModel::Literal { text: "\"Tristate::is_undefined\""@, span: Option::None },
                    ],
                    span: Option::None,
                },
            ],
            span: Option::None,
        },
    ]
}

/// The greatest nesting depth over a sequence of token sequences.
pub open spec fn items_height(items: Seq<Seq<TokenModel>>) -> nat
    decreases items.len(),
{
    if items.len() == 0 {
        0
    } else {
        let a = items_height(items.drop_last());
        let b = stream_height(items.last());
        if a < b {
            b
        } else {
            a
        }
    }
}

/// No item is deeper than the sequence of items.
pub proof fn lemma_items_height_bounds(items: Seq<Seq<TokenModel>>)
    ensures
        forall|k: int| 0 <= k < items.len() ==> stream_height(#[trigger] items[k]) <= items_height(items),
    decreases items.len(),
{
    if items.len() > 0 {
        lemma_items_height_bounds(items.drop_last());
        assert forall|k: int| 0 <= k < items.len() implies stream_height(#[trigger] items[k])
            <= items_height(items) by {
            if k < items.len() - 1 {
                assert(items[k] == items.drop_last()[k]);
            }
        }
    }
}

/// Items that are all at most `h` deep make a sequence at most `h` deep.
pub proof fn lemma_items_height_at_most(items: Seq<Seq<TokenModel>>, h: nat)
    requires
        forall|k: int| 0 <= k < items.len() ==> stream_height(#[trigger] items[k]) <= h,
    ensures
        items_height(items) <= h,
    decreases items.len(),
{
    if items.len() > 0 {
        assert forall|k: int| 0 <= k < items.drop_last().len() implies stream_height(
            #[trigger] items.drop_last()[k],
        ) <= h by {
            assert(items.drop_last()[k] == items[k]);
        }
        lemma_items_height_at_most(items.drop_last(), h);
    }
}

/// Every token of every item of a split prefix comes from `s`, so none is
/// deeper than `s`.
proof fn lemma_split_prefix_height(s: Seq<TokenModel>, n: nat)
    requires
        n <= s.len(),
    ensures
        forall|k: int, j: int|
            0 <= k < split_prefix(s, n).done.len() && 0 <= j < split_prefix(s, n).done[k].len()
                ==> token_height(#[trigger] split_prefix(s, n).done[k][j]) <= stream_height(s),
        forall|j: int|
            0 <= j < split_prefix(s, n).current.len() ==> token_height(
                #[trigger] split_prefix(s, n).current[j],
            ) <= stream_height(s),
    decreases n,
{
    lemma_stream_height_bounds(s);
    if n > 0 {
        lemma_split_prefix_height(s, (n - 1) as nat);
        let prev = split_prefix(s, (n - 1) as nat);
        let st = split_prefix(s, n);
        if is_separator(prev.depth, s[n - 1]) {
            assert forall|k: int, j: int|
                0 <= k < st.done.len() && 0 <= j < st.done[k].len() implies token_height(
                #[trigger] st.done[k][j],
            ) <= stream_height(s) by {
                if k == st.done.len() - 1 {
                    assert(st.done[k] == prev.current);
                } else {
                    assert(st.done[k] == prev.done[k]);
                }
            }
        } else {
            assert forall|j: int| 0 <= j < st.current.len() implies token_height(
                #[trigger] st.current[j],
            ) <= stream_height(s) by {
                if j < prev.current.len() {
                    assert(st.current[j] == prev.current[j]);
                } else {
                    assert(st.current[j] == s[n - 1]);
                }
            }
        }
    }
}

/// No item of a split is deeper than the sequence that was split.
pub proof fn lemma_split_height(s: Seq<TokenModel>)
    ensures
        items_height(split_top_level(s).0) <= stream_height(s),
        forall|k: int|
            0 <= k < split_top_level(s).0.len() ==> stream_height(#[trigger] split_top_level(s).0[k])
                <= stream_height(s),
{
    lemma_split_prefix_height(s, s.len());
    let st = split_prefix(s, s.len());
    let items = split_top_level(s).0;
    assert forall|k: int| 0 <= k < items.len() implies stream_height(#[trigger] items[k])
        <= stream_height(s) by {
        if k < st.done.len() {
            assert(items[k] == st.done[k]);
            assert forall|j: int| 0 <= j < items[k].len() implies token_height(
                #[trigger] items[k][j],
            ) <= stream_height(s) by {
                assert(items[k][j] == st.done[k][j]);
            }
        } else {
            assert(items[k] == st.current);
        }
        lemma_stream_height_at_most(items[k], stream_height(s));
    }
    lemma_items_height_at_most(items, stream_height(s));
}

/// A body after the rewrite: each item rewritten, the items joined by commas,
/// with a final comma where the body had one.
pub open spec fn body_output(s: Seq<TokenModel>) -> Seq<TokenModel>
    decreases stream_height(s), 3nat, 0nat,
{
    let items = split_top_level(s).0;
    proof {
        lemma_split_height(s);
    }
    joined_output(items, split_top_level(s).1, items.len())
}

/// The first `n` rewritten items of a body, each followed by a comma except the
/// last one of the body when the body does not end with a comma.
pub open spec fn joined_output(items: Seq<Seq<TokenModel>>, trailing_comma: bool, n: nat) -> Seq<
    TokenModel,
>
    decreases items_height(items), 2nat, n,
{
    if n == 0 || n > items.len() {
        Seq::empty()
    } else {
        proof {
            lemma_items_height_bounds(items);
        }
        joined_output(items, trailing_comma, (n - 1) as nat) + item_output(items[n - 1]) + (if n
            < items.len() || trailing_comma {
            seq![comma_model()]
        } else {
            Seq::empty()
        })
    }
}

/// One item (a field, or an enum variant) after the rewrite: a variant with a
/// brace-delimited body has that body rewritten; a field of `Tristate<..>`
/// type gets the serde attribute in front; anything else stays as it is.
pub open spec fn item_output(item: Seq<TokenModel>) -> Seq<TokenModel>
    decreases stream_height(item), 1nat, 0nat,
{
    if item.len() == 0 {
        Seq::empty()
    } else {
        match first_brace(item) {
            Some(p) => brace_output(item, p),
            Option::None => if is_tristate_field_model(item) {
                serde_attribute_model() + item
            } else {
                item
            },
        }
    }
}

/// `t` with the group at `p` replaced by a brace group, of the same span,
/// holding the rewritten contents of that group.
pub open spec fn brace_output(t: Seq<TokenModel>, p: int) -> Seq<TokenModel>
    decreases stream_height(t), 0nat, 0nat,
{
    if 0 <= p < t.len() {
        if let TokenModel::Group { stream, span, .. } = t[p] {
            proof {
                lemma_stream_height_bounds(t);
            }
            t.take(p) + seq![
                TokenModel::Group { delimiter: Delimiter::Brace, stream: body_output(stream), span },
            ] + t.skip(p + 1)
        } else {
            t
        }
    } else {
        t
    }
}

/// The item that the attribute stands on, after the rewrite: its first
/// brace-delimited group (the body) rewritten; without one, unchanged.
pub open spec fn attribute_output(input: Seq<TokenModel>) -> Seq<TokenModel> {
    match first_brace(input) {
        Some(p) => brace_output(input, p),
        Option::None => input,
    }
}


// ---------------------------------------------------------------------------
// Laws of the split
// ---------------------------------------------------------------------------

/// `s` with every separating comma replaced by the comma that the rewrite
/// writes; every other token is kept.
pub open spec fn normalized_commas(s: Seq<TokenModel>) -> Seq<TokenModel> {
    Seq::new(
        s.len(),
        |i: int|
            if is_separator(split_prefix(s, i as nat).depth, s[i]) {
                comma_model()
            } else {
                s[i]
            },
    )
}

/// The first `n` items of a split joined back by commas, the way the rewrite
/// joins them: each followed by a comma except the last one of the body when
/// the body does not end with a comma.
pub open spec fn joined_items(items: Seq<Seq<TokenModel>>, trailing_comma: bool, n: nat) -> Seq<
    TokenModel,
>
    decreases n,
{
    if n == 0 || n > items.len() {
        Seq::empty()
    } else {
        joined_items(items, trailing_comma, (n - 1) as nat) + items[n - 1] + (if n < items.len()
            || trailing_comma {
            seq![comma_model()]
        } else {
            Seq::empty()
        })
    }
}

/// Items each followed by a comma.
pub open spec fn comma_terminated(items: Seq<Seq<TokenModel>>) -> Seq<TokenModel>
    decreases items.len(),
{
    if items.len() == 0 {
        Seq::empty()
    } else {
        comma_terminated(items.drop_last()) + items.last() + seq![comma_model()]
    }
}

proof fn lemma_split_prefix_normalized(s: Seq<TokenModel>, n: nat)
    requires
        n <= s.len(),
    ensures
        normalized_commas(s).take(n as int) == comma_terminated(split_prefix(s, n).done)
            + split_prefix(s, n).current,
        split_prefix(s, n).trailing_comma ==> split_prefix(s, n).current.len() == 0,
        n > 0 && split_prefix(s, n).current.len() == 0 ==> split_prefix(s, n).trailing_comma,
    decreases n,
{
    if n == 0 {
        assert(normalized_commas(s).take(0) =~= comma_terminated(Seq::empty()) + Seq::empty());
    } else {
        let k = (n - 1) as nat;
        lemma_split_prefix_normalized(s, k);
        let prev = split_prefix(s, k);
        let st = split_prefix(s, n);
        assert(normalized_commas(s).take(n as int) =~= normalized_commas(s).take(k as int).push(
            normalized_commas(s)[k as int],
        ));
        if is_separator(prev.depth, s[k as int]) {
            assert(st.done.drop_last() =~= prev.done);
            assert(comma_terminated(st.done) + st.current =~= comma_terminated(prev.done)
                + prev.current + seq![comma_model()]);
        } else {
            assert(comma_terminated(st.done) + st.current =~= (comma_terminated(prev.done)
                + prev.current).push(s[k as int]));
        }
    }
}

proof fn lemma_joined_items_terminated(items: Seq<Seq<TokenModel>>, trailing_comma: bool, k: nat)
    requires
        k <= items.len(),
        k < items.len() || trailing_comma,
    ensures
        joined_items(items, trailing_comma, k) == comma_terminated(items.take(k as int)),
    decreases k,
{
    if k == 0 {
        assert(items.take(0) =~= Seq::<Seq<TokenModel>>::empty());
    } else {
        lemma_joined_items_terminated(items, trailing_comma, (k - 1) as nat);
        assert(items.take(k as int).drop_last() =~= items.take(k - 1));
    }
}

/// Splitting a body at its top-level commas and joining the items back with
/// commas gives the body again, with only its separating commas replaced by
/// the comma that the rewrite writes: the split loses and adds nothing.
pub proof fn lemma_split_join_roundtrip(s: Seq<TokenModel>)
    ensures
        joined_items(split_top_level(s).0, split_top_level(s).1, split_top_level(s).0.len())
            == normalized_commas(s),
{
    let st = split_prefix(s, s.len());
    lemma_split_prefix_normalized(s, s.len());
    assert(normalized_commas(s).take(s.len() as int) =~= normalized_commas(s));
    let (items, tc) = split_top_level(s);
    if st.current.len() == 0 {
        if s.len() == 0 {
            assert(st.done.len() == 0);
            assert(normalized_commas(s) =~= Seq::<TokenModel>::empty());
        } else {
            lemma_joined_items_terminated(items, tc, items.len());
            assert(items.take(items.len() as int) =~= items);
            assert(normalized_commas(s) =~= comma_terminated(st.done));
        }
    } else {
        let n = items.len();
        lemma_joined_items_terminated(items, tc, (n - 1) as nat);
        assert(items.take(n - 1) =~= st.done);
        assert(joined_items(items, tc, n) =~= comma_terminated(st.done) + st.current);
    }
}

proof fn lemma_joined_output_unchanged(items: Seq<Seq<TokenModel>>, trailing_comma: bool, k: nat)
    requires
        forall|j: int| 0 <= j < items.len() ==> #[trigger] item_output(items[j]) == items[j],
    ensures
        joined_output(items, trailing_comma, k) == joined_items(items, trailing_comma, k),
    decreases k,
{
    if k > 0 && k <= items.len() {
        lemma_joined_output_unchanged(items, trailing_comma, (k - 1) as nat);
        assert(item_output(items[k - 1]) == items[k - 1]);
    }
}

/// A body none of whose items is a `Tristate<..>` field or holds a
/// brace-delimited group comes out of the rewrite as it went in, but for
/// its separating commas, which are written anew.
pub proof fn lemma_body_without_tristate_fields(s: Seq<TokenModel>)
    requires
        forall|k: int|
            0 <= k < split_top_level(s).0.len() ==> first_brace(#[trigger] split_top_level(s).0[k])
                is None && !is_tristate_field_model(split_top_level(s).0[k]),
    ensures
        body_output(s) == normalized_commas(s),
{
    let items = split_top_level(s).0;
    assert forall|j: int| 0 <= j < items.len() implies #[trigger] item_output(items[j])
        == items[j] by {
        assert(first_brace(items[j]) is None);
        if items[j].len() == 0 {
            assert(items[j] =~= Seq::<TokenModel>::empty());
        }
    }
    lemma_joined_output_unchanged(items, split_top_level(s).1, items.len());
    lemma_split_join_roundtrip(s);
}

// ---------------------------------------------------------------------------
// Laws of fields joined by commas
// ---------------------------------------------------------------------------

/// Whether the `>` at `j` of `f` closes an angle bracket: every `>` does,
/// except the one of an arrow `->`.
pub open spec fn closes_angle(f: Seq<TokenModel>, j: int) -> bool {
    is_punct(f[j], '>') && !(j > 0 && is_joint_dash(f[j - 1]))
}

/// The number of `<` minus the number of closing `>` among the first `k`
/// tokens of `f`.
pub open spec fn angle_balance(f: Seq<TokenModel>, k: int) -> int
    decreases k,
{
    if k <= 0 {
        0
    } else {
        angle_balance(f, k - 1) + (if is_punct(f[k - 1], '<') {
            1int
        } else if closes_angle(f, k - 1) {
            -1int
        } else {
            0int
        })
    }
}

/// A field (or variant) whose angle brackets are balanced, where every comma
/// stands inside some `<..>`: `name: Tristate<HashMap<K, V>>` is one,
/// with its `>>` counted as two closing brackets.
pub open spec fn is_balanced_field(f: Seq<TokenModel>) -> bool {
    &&& forall|k: int| 0 <= k <= f.len() ==> #[trigger] angle_balance(f, k) >= 0
    &&& angle_balance(f, f.len() as int) == 0
    &&& forall|j: int| 0 <= j < f.len() && is_punct(#[trigger] f[j], ',') ==> angle_balance(f, j) > 0
}

/// Fields written one after another with a comma between each two.
pub open spec fn commas_joined(fs: Seq<Seq<TokenModel>>) -> Seq<TokenModel>
    decreases fs.len(),
{
    if fs.len() == 0 {
        Seq::empty()
    } else if fs.len() == 1 {
        fs[0]
    } else {
        commas_joined(fs.drop_last()) + seq![comma_model()] + fs.last()
    }
}

/// The split state after reading the first `k` tokens of `t` from `st`.
pub open spec fn split_run(st: SplitState, t: Seq<TokenModel>, k: nat) -> SplitState
    decreases k,
{
    if k == 0 {
        st
    } else {
        split_step(split_run(st, t, (k - 1) as nat), t[k - 1])
    }
}

proof fn lemma_split_prefix_agree(s1: Seq<TokenModel>, s2: Seq<TokenModel>, n: nat)
    requires
        n <= s1.len(),
        n <= s2.len(),
        forall|i: int| 0 <= i < n ==> s1[i] == s2[i],
    ensures
        split_prefix(s1, n) == split_prefix(s2, n),
    decreases n,
{
    if n > 0 {
        lemma_split_prefix_agree(s1, s2, (n - 1) as nat);
    }
}

proof fn lemma_split_prefix_concat(a: Seq<TokenModel>, b: Seq<TokenModel>, k: nat)
    requires
        k <= b.len(),
    ensures
        split_prefix(a + b, a.len() + k) == split_run(split_prefix(a, a.len()), b, k),
    decreases k,
{
    if k == 0 {
        lemma_split_prefix_agree(a + b, a, a.len());
    } else {
        lemma_split_prefix_concat(a, b, (k - 1) as nat);
        assert((a + b)[a.len() + k - 1] == b[k - 1]);
    }
}

proof fn lemma_run_balanced(st: SplitState, f: Seq<TokenModel>, k: nat)
    requires
        st.depth == 0,
        !st.after_dash,
        is_balanced_field(f),
        k <= f.len(),
    ensures
        split_run(st, f, k).done == st.done,
        split_run(st, f, k).current == st.current + f.take(k as int),
        split_run(st, f, k).trailing_comma == (if k == 0 {
            st.trailing_comma
        } else {
            false
        }),
        split_run(st, f, k).depth == angle_balance(f, k as int),
        split_run(st, f, k).after_dash == (k > 0 && is_joint_dash(f[k - 1])),
    decreases k,
{
    if k == 0 {
        assert(st.current + f.take(0) =~= st.current);
    } else {
        let j = (k - 1) as nat;
        lemma_run_balanced(st, f, j);
        let prev = split_run(st, f, j);
        let t = f[j as int];
        assert(angle_balance(f, j as int) >= 0);
        assert(angle_balance(f, k as int) >= 0);
        if is_punct(t, ',') {
            assert(angle_balance(f, j as int) > 0);
        }
        assert(f.take(k as int) =~= f.take(j as int).push(t));
        assert(st.current + f.take(k as int) =~= (st.current + f.take(j as int)).push(t));
    }
}

proof fn lemma_split_fields_state(fs: Seq<Seq<TokenModel>>)
    requires
        fs.len() >= 1,
        forall|i: int| 0 <= i < fs.len() ==> is_balanced_field(#[trigger] fs[i]),
        forall|i: int| 0 <= i < fs.len() ==> (#[trigger] fs[i]).len() > 0,
    ensures
        split_prefix(commas_joined(fs), commas_joined(fs).len()) == (SplitState {
            done: fs.drop_last(),
            current: fs.last(),
            trailing_comma: false,
            depth: 0,
            after_dash: is_joint_dash(fs.last().last()),
        }),
    decreases fs.len(),
{
    let init = SplitState {
        done: Seq::empty(),
        current: Seq::empty(),
        trailing_comma: false,
        depth: 0,
        after_dash: false,
    };
    let f = fs.last();
    assert(is_balanced_field(f));
    if fs.len() == 1 {
        let j = commas_joined(fs);
        assert(j == f);
        lemma_split_prefix_concat(Seq::empty(), f, f.len());
        assert(Seq::<TokenModel>::empty() + f =~= f);
        lemma_run_balanced(init, f, f.len());
        assert(f.take(f.len() as int) =~= f);
        assert(Seq::<TokenModel>::empty() + f =~= f);
        assert(fs.drop_last() =~= Seq::<Seq<TokenModel>>::empty());
    } else {
        let rest = fs.drop_last();
        assert forall|i: int| 0 <= i < rest.len() implies is_balanced_field(#[trigger] rest[i])
            && rest[i].len() > 0 by {
            assert(rest[i] == fs[i]);
        }
        lemma_split_fields_state(rest);
        let jr = commas_joined(rest);
        let a = jr + seq![comma_model()];
        assert(commas_joined(fs) == a + f);
        lemma_split_prefix_agree(a, jr, jr.len());
        let sa = split_prefix(a, a.len());
        assert(a[jr.len() as int] == comma_model());
        assert(sa == split_step(split_prefix(a, jr.len()), comma_model()));
        assert(rest.drop_last().push(rest.last()) =~= rest);
        let mid = SplitState {
            done: rest,
            current: Seq::empty(),
            trailing_comma: true,
            depth: 0,
            after_dash: false,
        };
        assert(sa == mid);
        lemma_split_prefix_concat(a, f, f.len());
        lemma_run_balanced(mid, f, f.len());
        assert(f.take(f.len() as int) =~= f);
        assert(Seq::<TokenModel>::empty() + f =~= f);
    }
}

/// Fields joined by commas, each of them non-empty and with its angle
/// brackets balanced, split back into exactly those fields, with no trailing
/// comma: a comma inside `<..>` (`HashMap<K, V>`, `Tristate<Vec<String>>`
/// and the like) never separates, and a comma between two fields always does.
pub proof fn lemma_split_fields(fs: Seq<Seq<TokenModel>>)
    requires
        fs.len() >= 1,
        forall|i: int| 0 <= i < fs.len() ==> is_balanced_field(#[trigger] fs[i]),
        forall|i: int| 0 <= i < fs.len() ==> (#[trigger] fs[i]).len() > 0,
    ensures
        split_top_level(commas_joined(fs)) == (fs, false),
{
    lemma_split_fields_state(fs);
    assert(fs.drop_last().push(fs.last()) =~= fs);
}

/// Each item of `fs` rewritten.
pub open spec fn items_rewritten(fs: Seq<Seq<TokenModel>>) -> Seq<Seq<TokenModel>> {
    fs.map_values(|f: Seq<TokenModel>| item_output(f))
}

proof fn lemma_joined_output_fields(fs: Seq<Seq<TokenModel>>, tc: bool, n: nat)
    requires
        1 <= n <= fs.len(),
    ensures
        joined_output(fs, tc, n) == commas_joined(items_rewritten(fs).take(n as int)) + (if n
            < fs.len() || tc {
            seq![comma_model()]
        } else {
            Seq::empty()
        }),
    decreases n,
{
    let out = items_rewritten(fs);
    if n == 1 {
        assert(joined_output(fs, tc, 0) == Seq::<TokenModel>::empty());
        assert(out.take(1).len() == 1);
        assert(out.take(1)[0] == item_output(fs[0]));
        assert(commas_joined(out.take(1)) == item_output(fs[0]));
        assert(joined_output(fs, tc, 1) =~= commas_joined(out.take(1)) + (if 1 < fs.len() || tc {
            seq![comma_model()]
        } else {
            Seq::empty()
        }));
    } else {
        lemma_joined_output_fields(fs, tc, (n - 1) as nat);
        assert(out.take(n as int).drop_last() =~= out.take(n - 1));
        assert(out.take(n as int).last() == item_output(fs[n - 1]));
        assert(joined_output(fs, tc, n) =~= commas_joined(out.take(n as int)) + (if n < fs.len()
            || tc {
            seq![comma_model()]
        } else {
            Seq::empty()
        }));
    }
}

/// A body of fields joined by commas, each non-empty with balanced angle
/// brackets, comes out as the same fields, each one rewritten on its own
/// (every `Tristate<..>` field marked), joined by commas.
pub proof fn lemma_body_of_fields(fs: Seq<Seq<TokenModel>>)
    requires
        fs.len() >= 1,
        forall|i: int| 0 <= i < fs.len() ==> is_balanced_field(#[trigger] fs[i]),
        forall|i: int| 0 <= i < fs.len() ==> (#[trigger] fs[i]).len() > 0,
    ensures
        body_output(commas_joined(fs)) == commas_joined(items_rewritten(fs)),
{
    lemma_split_fields(fs);
    lemma_joined_output_fields(fs, false, fs.len());
    assert(items_rewritten(fs).take(fs.len() as int) =~= items_rewritten(fs));
}

/// The same fields followed by a trailing comma split into exactly those
/// fields, and the body says that it ends with a comma.
pub proof fn lemma_split_fields_trailing_comma(fs: Seq<Seq<TokenModel>>)
    requires
        fs.len() >= 1,
        forall|i: int| 0 <= i < fs.len() ==> is_balanced_field(#[trigger] fs[i]),
        forall|i: int| 0 <= i < fs.len() ==> (#[trigger] fs[i]).len() > 0,
    ensures
        split_top_level(commas_joined(fs) + seq![comma_model()]) == (fs, true),
{
    let j = commas_joined(fs);
    let s = j + seq![comma_model()];
    lemma_split_fields_state(fs);
    lemma_split_prefix_agree(s, j, j.len());
    assert(s[j.len() as int] == comma_model());
    assert(fs.drop_last().push(fs.last()) =~= fs);
    assert(split_prefix(s, s.len()).current =~= Seq::<TokenModel>::empty());
}

/// A body of such fields with a trailing comma comes out as the fields, each
/// rewritten, joined by commas, and the trailing comma kept.
pub proof fn lemma_body_of_fields_trailing_comma(fs: Seq<Seq<TokenModel>>)
    requires
        fs.len() >= 1,
        forall|i: int| 0 <= i < fs.len() ==> is_balanced_field(#[trigger] fs[i]),
        forall|i: int| 0 <= i < fs.len() ==> (#[trigger] fs[i]).len() > 0,
    ensures
        body_output(commas_joined(fs) + seq![comma_model()]) == commas_joined(items_rewritten(fs))
            + seq![comma_model()],
{
    lemma_split_fields_trailing_comma(fs);
    lemma_joined_output_fields(fs, true, fs.len());
    assert(items_rewritten(fs).take(fs.len() as int) =~= items_rewritten(fs));
}

// ---------------------------------------------------------------------------
// Laws of recognising and marking a field
// ---------------------------------------------------------------------------

/// Whether no token of `p` is a `:`.
pub open spec fn colon_free(p: Seq<TokenModel>) -> bool {
    forall|i: int| 0 <= i < p.len() ==> !is_punct(#[trigger] p[i], ':')
}

proof fn lemma_colon_scan_prefix(p: Seq<TokenModel>, f: Seq<TokenModel>, i: int)
    requires
        colon_free(p),
        0 <= i <= p.len(),
    ensures
        first_field_colon(p + f, i) == first_field_colon(p + f, p.len() as int),
    decreases p.len() - i,
{
    if i < p.len() {
        assert((p + f)[i] == p[i]);
        lemma_colon_scan_prefix(p, f, i + 1);
    }
}

proof fn lemma_colon_scan_shift(p: Seq<TokenModel>, f: Seq<TokenModel>, i: int)
    requires
        0 <= i,
    ensures
        first_field_colon(p + f, p.len() + i) == (match first_field_colon(f, i) {
            Some(c) => Some(c + p.len()),
            Option::None => Option::None,
        }),
    decreases f.len() - i,
{
    if i < f.len() {
        assert((p + f)[p.len() + i] == f[i]);
        if i + 1 < f.len() {
            assert((p + f)[p.len() + i + 1] == f[i + 1]);
        }
        if is_punct(f[i], ':') {
            if i + 1 < f.len() && is_punct(f[i + 1], ':') {
                lemma_colon_scan_shift(p, f, i + 2);
            }
        } else {
            lemma_colon_scan_shift(p, f, i + 1);
        }
    }
}

proof fn lemma_first_field_colon_range(t: Seq<TokenModel>, i: int)
    requires
        0 <= i,
    ensures
        first_field_colon(t, i) matches Some(c) ==> i <= c < t.len(),
    decreases t.len() - i,
{
    if i < t.len() {
        if is_punct(t[i], ':') {
            if i + 1 < t.len() && is_punct(t[i + 1], ':') {
                lemma_first_field_colon_range(t, i + 2);
            }
        } else {
            lemma_first_field_colon_range(t, i + 1);
        }
    }
}

/// Tokens before a field that hold no `:` (outer attributes and doc
/// comments, a `#` followed by a `[..]` group; a visibility such as `pub` or
/// `pub(crate)`) do not change whether it is recognised as a `Tristate<..>`
/// field.
pub proof fn lemma_recognition_ignores_prefix(p: Seq<TokenModel>, f: Seq<TokenModel>)
    requires
        colon_free(p),
    ensures
        is_tristate_field_model(p + f) == is_tristate_field_model(f),
{
    let t = p + f;
    lemma_colon_scan_prefix(p, f, 0);
    lemma_colon_scan_shift(p, f, 0);
    lemma_first_field_colon_range(f, 0);
    assert forall|j: int| 0 <= j implies #[trigger] tristate_type_at(f, j) == tristate_type_at(
        t,
        j + p.len(),
    ) by {
        if j + 1 < f.len() {
            assert(t[j + p.len()] == f[j]);
            assert(t[j + p.len() + 1] == f[j + 1]);
        }
    }
    if let Some(c) = first_field_colon(f, 0) {
        if is_tristate_field_model(f) {
            let j = choose|j: int| c < j && #[trigger] tristate_type_at(f, j);
            assert(tristate_type_at(t, j + p.len()));
        }
        if is_tristate_field_model(t) {
            let k = choose|k: int| c + p.len() < k && #[trigger] tristate_type_at(t, k);
            let j = k - p.len();
            assert(t[k] == f[j]);
            assert(t[k + 1] == f[j + 1]);
            assert(tristate_type_at(f, j));
        }
    }
}

/// A field `name: Tristate<..>`, with any attributes, doc comments or
/// visibility before its name, is recognised as a `Tristate<..>` field.
pub proof fn lemma_tristate_field_recognised(
    p: Seq<TokenModel>,
    name: TokenModel,
    colon: TokenModel,
    ty: TokenModel,
    open: TokenModel,
    rest: Seq<TokenModel>,
)
    requires
        colon_free(p),
        !is_punct(name, ':'),
        is_punct(colon, ':'),
        is_tristate_name(ty),
        is_punct(open, '<'),
    ensures
        is_tristate_field_model(p + (seq![name, colon, ty, open] + rest)),
{
    let f = seq![name, colon, ty, open] + rest;
    assert(f[0] == name && f[1] == colon && f[2] == ty && f[3] == open);
    assert(!is_punct(ty, ':'));
    assert(first_field_colon(f, 1) == Some(1int));
    assert(first_field_colon(f, 0) == Some(1int));
    assert(tristate_type_at(f, 2));
    lemma_recognition_ignores_prefix(p, f);
}

/// A field `name: ty`, with any attributes, doc comments or visibility
/// before its name, is recognised as a `Tristate<..>` field exactly when its
/// type `ty` holds the identifier `Tristate` followed by `<`
/// (`Tristate<u8>`, `Option<Tristate<u8>>`, `crate::Tristate<u8>`); a
/// `Tristate` before the field's colon does not count.
pub proof fn lemma_field_recognition(
    p: Seq<TokenModel>,
    name: TokenModel,
    colon: TokenModel,
    ty: Seq<TokenModel>,
)
    requires
        colon_free(p),
        !is_punct(name, ':'),
        is_punct(colon, ':'),
        ty.len() == 0 || !is_punct(ty[0], ':'),
    ensures
        is_tristate_field_model(p + (seq![name, colon] + ty)) <==> exists|j: int|
            #[trigger] tristate_type_at(ty, j),
{
    let f = seq![name, colon] + ty;
    assert(f[0] == name && f[1] == colon);
    if ty.len() > 0 {
        assert(f[2] == ty[0]);
    }
    assert(first_field_colon(f, 1) == Some(1int));
    assert(first_field_colon(f, 0) == Some(1int));
    lemma_recognition_ignores_prefix(p, f);
    assert forall|j: int| 0 <= j implies #[trigger] tristate_type_at(ty, j) == tristate_type_at(
        f,
        j + 2,
    ) by {
        if j + 1 < ty.len() {
            assert(f[j + 2] == ty[j]);
            assert(f[j + 3] == ty[j + 1]);
        }
    }
    if is_tristate_field_model(f) {
        let k = choose|k: int| 1 < k && #[trigger] tristate_type_at(f, k);
        if k == 2 {
            assert(tristate_type_at(f, 2));
            assert(f[2] == ty[0]);
            assert(tristate_type_at(ty, 0));
        } else {
            assert(tristate_type_at(ty, k - 2));
        }
    }
    if exists|j: int| #[trigger] tristate_type_at(ty, j) {
        let j = choose|j: int| #[trigger] tristate_type_at(ty, j);
        assert(tristate_type_at(f, j + 2));
    }
}

/// Whether `t` holds no brace-delimited group at its top level.
pub open spec fn brace_free(t: Seq<TokenModel>) -> bool {
    forall|j: int| 0 <= j < t.len() ==> !is_brace_group(#[trigger] t[j])
}

proof fn lemma_no_brace(t: Seq<TokenModel>, i: int)
    requires
        brace_free(t),
        0 <= i,
    ensures
        first_brace_from(t, i) is None,
    decreases t.len() - i,
{
    if i < t.len() {
        lemma_no_brace(t, i + 1);
    }
}

/// A field recognised as a `Tristate<..>` field, and holding no brace group,
/// comes out as the serde attribute followed by the whole field: the
/// attribute goes in front of its attributes and visibility too.
pub proof fn lemma_tristate_field_marked(item: Seq<TokenModel>)
    requires
        brace_free(item),
        is_tristate_field_model(item),
    ensures
        item_output(item) == serde_attribute_model() + item,
{
    lemma_no_brace(item, 0);
    if item.len() == 0 {
        assert(first_field_colon(item, 0) is None);
    }
}

/// A field that is not a `Tristate<..>` field, and holds no brace group,
/// comes out unchanged.
pub proof fn lemma_other_field_unchanged(item: Seq<TokenModel>)
    requires
        brace_free(item),
        !is_tristate_field_model(item),
    ensures
        item_output(item) == item,
{
    lemma_no_brace(item, 0);
    if item.len() == 0 {
        assert(item =~= Seq::<TokenModel>::empty());
    }
}

/// `name: Tristate<..>` with any attributes, doc comments or visibility in
/// front comes out with the serde attribute in front of all of it.
pub proof fn lemma_field_with_prefix_marked(
    p: Seq<TokenModel>,
    name: TokenModel,
    colon: TokenModel,
    ty: TokenModel,
    open: TokenModel,
    rest: Seq<TokenModel>,
)
    requires
        colon_free(p),
        !is_punct(name, ':'),
        is_punct(colon, ':'),
        is_tristate_name(ty),
        is_punct(open, '<'),
        brace_free(p + (seq![name, colon, ty, open] + rest)),
    ensures
        item_output(p + (seq![name, colon, ty, open] + rest)) == serde_attribute_model() + (p + (
        seq![name, colon, ty, open] + rest)),
{
    lemma_tristate_field_recognised(p, name, colon, ty, open, rest);
    lemma_tristate_field_marked(p + (seq![name, colon, ty, open] + rest));
}

// ---------------------------------------------------------------------------
// Laws of rewriting a body wherever it stands
// ---------------------------------------------------------------------------

proof fn lemma_first_brace_at(t: Seq<TokenModel>, p: int, i: int)
    requires
        0 <= i <= p < t.len(),
        is_brace_group(t[p]),
        forall|j: int| 0 <= j < p ==> !is_brace_group(#[trigger] t[j]),
    ensures
        first_brace_from(t, i) == Some(p),
    decreases p - i,
{
    if i < p {
        lemma_first_brace_at(t, p, i + 1);
    }
}

/// The tokens of `t` with the group at `p` replaced by a brace group, of that
/// group's span, holding the rewritten contents of that group.
pub open spec fn with_body_rewritten(t: Seq<TokenModel>, p: int) -> Seq<TokenModel>
    recommends
        0 <= p < t.len(),
        t[p] is Group,
{
    t.take(p) + seq![
        TokenModel::Group {
            delimiter: Delimiter::Brace,
            stream: body_output(t[p]->Group_stream),
            span: t[p]->Group_span,
        },
    ] + t.skip(p + 1)
}

/// An item (an enum variant) whose first brace group stands at `p`, wherever
/// that is (after attributes, doc comments, a name), comes out with the tokens
/// before `p` and after it unchanged and that group's contents rewritten.
pub proof fn lemma_item_body_rewritten(item: Seq<TokenModel>, p: int)
    requires
        0 <= p < item.len(),
        is_brace_group(item[p]),
        forall|j: int| 0 <= j < p ==> !is_brace_group(#[trigger] item[j]),
    ensures
        item_output(item) == with_body_rewritten(item, p),
{
    lemma_first_brace_at(item, p, 0);
}

/// An item under `#[serde_tristate]` whose first brace group stands at `p`,
/// wherever that is (after generics, a `where` clause, attributes), comes out
/// with the tokens before `p` and after it unchanged and its body rewritten.
pub proof fn lemma_attribute_body_rewritten(input: Seq<TokenModel>, p: int)
    requires
        0 <= p < input.len(),
        is_brace_group(input[p]),
        forall|j: int| 0 <= j < p ==> !is_brace_group(#[trigger] input[j]),
    ensures
        attribute_output(input) == with_body_rewritten(input, p),
{
    lemma_first_brace_at(input, p, 0);
}

/// An item without a brace group is handed back unchanged.
pub proof fn lemma_attribute_without_body(input: Seq<TokenModel>)
    requires
        brace_free(input),
    ensures
        attribute_output(input) == input,
{
    lemma_no_brace(input, 0);
}

// ---------------------------------------------------------------------------
// The rewrite
// ---------------------------------------------------------------------------

/// The comma that the rewrite puts between items.
fn comma() -> (t: TokenTree)
    ensures
        token_model(t) == comma_model(),
{
    TokenTree::Punct { ch: ',', spacing: Spacing::Alone, span: Option::None }
}

/// The tokens of `#[serde(default, skip_serializing_if = "Tristate::is_undefined")]`.
pub fn serde_attribute() -> (r: Vec<TokenTree>)
    ensures
        stream_model(r@) == serde_attribute_model(),
{
    let args = vec![
        TokenTree::Ident { name: String::from_str("default"), span: Option::None },
        comma(),
        TokenTree::Ident { name: String::from_str("skip_serializing_if"), span: Option::None },
        TokenTree::Punct { ch: '=', spacing: Spacing::Alone, span: Option::None },
        TokenTree::Literal {
            text: String::from_str("\"Tristate::is_undefined\""),
            span: Option::None,
        },
    ];
    proof {
        lemma_stream_model(args@);
    }
    let ghost args_model = stream_model(args@);
    let path = vec![
        TokenTree::Ident { name: String::from_str("serde"), span: Option::None },
        TokenTree::Group { delimiter: Delimiter::Parenthesis, stream: args, span: Option::None },
    ];
    proof {
        lemma_stream_model(path@);
    }
    let ghost path_model = stream_model(path@);
    let r = vec![
        TokenTree::Punct { ch: '#', spacing: Spacing::Alone, span: Option::None },
        TokenTree::Group { delimiter: Delimiter::Bracket, stream: path, span: Option::None },
    ];
    proof {
        lemma_stream_model(r@);
        let attr = serde_attribute_model();
        assert(args_model =~= attr[1]->Group_stream[1]->Group_stream);
        assert(path_model =~= attr[1]->Group_stream);
        assert(stream_model(r@) =~= attr);
    }
    r
}

/// Rewrites a body (the fields of a struct, or the variants of an enum).
/// `Group`s that the rewrite rebuilds keep their span; the commas that it
/// puts between items stand at the call site.
pub fn process_body(stream: Vec<TokenTree>) -> (out: Vec<TokenTree>)
    ensures
        stream_model(out@) == body_output(stream_model(stream@)),
    decreases stream_height(stream_model(stream@)), 2nat,
{
    let ghost m = stream_model(stream@);
    let (items, trailing_comma) = split_on_commas(stream);
    let ghost ms = streams_model(items@);
    proof {
        lemma_split_height(m);
    }
    let n = items.len();
    let mut rev = reversed(items);
    let mut out: Vec<TokenTree> = Vec::new();
    let mut i: usize = 0;
    while i < n
        invariant
            m == stream_model(stream@),
            (ms, trailing_comma) == split_top_level(m),
            ms == streams_model(items@),
            ms.len() == n,
            forall|k: int| 0 <= k < n ==> stream_height(#[trigger] ms[k]) <= stream_height(m),
            i <= n,
            rev.len() == n - i,
            forall|j: int| 0 <= j < rev.len() ==> #[trigger] rev@[j] == items@[n - 1 - j],
            stream_model(out@) == joined_output(ms, trailing_comma, i as nat),
        decreases n - i,
    {
        let item = rev.pop().unwrap();
        assert(stream_model(item@) == ms[i as int]);
        let ghost before = stream_model(out@);
        process_item(item, &mut out);
        if i + 1 < n || trailing_comma {
            let c = comma();
            proof {
                lemma_stream_model_push(out@, c);
            }
            out.push(c);
        }
        proof {
            assert(stream_model(out@) =~= joined_output(ms, trailing_comma, (i + 1) as nat));
        }
        i = i + 1;
    }
    out
}

/// Rewrites one item of a body and appends it to `out`.
pub fn process_item(item: Vec<TokenTree>, out: &mut Vec<TokenTree>)
    ensures
        stream_model(final(out)@) == stream_model(old(out)@) + item_output(stream_model(item@)),
    decreases stream_height(stream_model(item@)), 1nat,
{
    let ghost m = stream_model(item@);
    if item.len() == 0 {
        proof {
            lemma_stream_model(item@);
            assert(stream_model(old(out)@) + item_output(m) =~= stream_model(old(out)@));
        }
        return;
    }
    match brace_position(item.as_slice()) {
        Some(p) => {
            proof {
                lemma_brace_found(m, p as int);
                lemma_stream_model(item@);
            }
            process_brace_group(item, p, out);
        },
        Option::None => {
            let mut item = item;
            if is_tristate_field(item.as_slice()) {
                let mut attr = serde_attribute();
                proof {
                    lemma_stream_model_add(out@, attr@);
                }
                out.append(&mut attr);
            }
            proof {
                lemma_stream_model_add(out@, item@);
            }
            out.append(&mut item);
            proof {
                assert(stream_model(final(out)@) =~= stream_model(old(out)@) + item_output(m));
            }
        },
    }
}

/// The first brace group that the search finds is a brace group in range.
proof fn lemma_brace_found(t: Seq<TokenModel>, p: int)
    requires
        first_brace(t) == Some(p),
    ensures
        0 <= p < t.len(),
        is_brace_group(t[p]),
{
    lemma_first_brace_from(t, 0);
}

proof fn lemma_first_brace_from(t: Seq<TokenModel>, i: int)
    ensures
        first_brace_from(t, i) matches Some(p) ==> i <= p < t.len() && is_brace_group(t[p]),
    decreases t.len() - i,
{
    if 0 <= i < t.len() && !is_brace_group(t[i]) {
        lemma_first_brace_from(t, i + 1);
    }
}

/// Appends `tokens` to `out` with the brace group at `p` rebuilt around its
/// rewritten contents.
fn process_brace_group(tokens: Vec<TokenTree>, p: usize, out: &mut Vec<TokenTree>)
    requires
        p < tokens.len(),
        is_brace_group(stream_model(tokens@)[p as int]),
    ensures
        stream_model(final(out)@) == stream_model(old(out)@) + brace_output(
            stream_model(tokens@),
            p as int,
        ),
    decreases stream_height(stream_model(tokens@)), 0nat,
{
    let ghost s = tokens@;
    let ghost m = stream_model(s);
    proof {
        lemma_stream_model(s);
        lemma_stream_height_bounds(m);
        lemma_stream_model_subrange(s, 0, p as int);
        lemma_stream_model_subrange(s, p as int + 1, s.len() as int);
    }
    let mut head = tokens;
    let mut tail = head.split_off(p);
    let group = tail.remove(0);
    assert(group == s[p as int]);
    assert(head@ =~= s.subrange(0, p as int));
    assert(tail@ =~= s.subrange(p as int + 1, s.len() as int));
    proof {
        lemma_stream_model_add(out@, head@);
    }
    out.append(&mut head);
    match group {
        TokenTree::Group { stream, span, .. } => {
            assert(token_height(m[p as int]) == 1 + stream_height(stream_model(stream@)));
            let processed = process_body(stream);
            let g = TokenTree::Group { delimiter: Delimiter::Brace, stream: processed, span };
            proof {
                lemma_stream_model_push(out@, g);
            }
            out.push(g);
        },
        _ => {
            proof {
                assert(false);
            }
        },
    }
    let ghost tail_model = stream_model(tail@);
    proof {
        lemma_stream_model_add(out@, tail@);
    }
    out.append(&mut tail);
    proof {
        assert(m.take(p as int) =~= m.subrange(0, p as int));
        assert(m.skip(p as int + 1) =~= m.subrange(p as int + 1, m.len() as int));
        assert(stream_model(final(out)@) =~= stream_model(old(out)@) + brace_output(m, p as int));
    }
}

/// The `#[serde_tristate]` attribute on a struct or an enum: the first
/// brace-delimited group of `input` (its body) is rewritten by
/// [`process_body`]; an item without one is handed back unchanged. The
/// attribute's own arguments are ignored.
pub fn serde_tristate(_args: Vec<TokenTree>, input: Vec<TokenTree>) -> (r: Vec<TokenTree>)
    ensures
        stream_model(r@) == attribute_output(stream_model(input@)),
{
    match brace_position(input.as_slice()) {
        Some(p) => {
            proof {
                lemma_brace_found(stream_model(input@), p as int);
                lemma_stream_model(input@);
            }
            let mut out: Vec<TokenTree> = Vec::new();
            process_brace_group(input, p, &mut out);
            proof {
                assert(stream_model(out@) =~= Seq::<TokenModel>::empty() + attribute_output(
                    stream_model(input@),
                ));
            }
            out
        },
        Option::None => input,
    }
}

} // verus!
