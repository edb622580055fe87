use vstd::prelude::*;

use crate::token::{Delimiter, Token, TokenView};

verus! {

/// The values of a sequence of tokens.
pub open spec fn views(s: Seq<Token>) -> Seq<TokenView> {
    Seq::new(s.len(), |i: int| s[i].view())
}

/// A group delimited by braces: the shape of a function body.
pub open spec fn is_body(t: TokenView) -> bool {
    t matches TokenView::Group(d, _) && d == Delimiter::Brace
}

/// The keyword that opens a block in which the compiler takes the
/// programmer's word for operations it cannot check.
pub open spec fn trust_marker() -> TokenView {
    TokenView::Ident("unsafe"@)
}

/// A body with contents `inner`, rewritten: a brace group holding the marker
/// and then a brace group with `inner` unchanged.
pub open spec fn wrapped(inner: Seq<TokenView>) -> TokenView {
    TokenView::Group(
        Delimiter::Brace,
        seq![trust_marker(), TokenView::Group(Delimiter::Brace, inner)],
    )
}

/// What becomes of the token that is taken as the body.
pub open spec fn wrap_body(t: TokenView) -> TokenView {
    match t {
        TokenView::Group(_, inner) => wrapped(inner),
        _ => t,
    }
}

/// The rewritten stream: every token up to the first brace group is kept,
/// that group is wrapped, and every token after it is kept unexamined.
pub open spec fn rewritten(s: Seq<TokenView>) -> Seq<TokenView>
    decreases s.len(),
{
    if s.len() == 0 {
        s
    } else if is_body(s[0]) {
        seq![wrap_body(s[0])] + s.drop_first()
    } else {
        seq![s[0]] + rewritten(s.drop_first())
    }
}

/// `i` is the position of the first brace group of `s`.
pub open spec fn is_first_body(s: Seq<TokenView>, i: int) -> bool {
    &&& 0 <= i < s.len()
    &&& is_body(s[i])
    &&& forall|j: int| 0 <= j < i ==> !is_body(#[trigger] s[j])
}

/// A stream without any brace group comes out of the rewrite as it went in.
pub proof fn lemma_no_body_unchanged(s: Seq<TokenView>)
    requires
        forall|j: int| 0 <= j < s.len() ==> !is_body(#[trigger] s[j]),
    ensures
        rewritten(s) == s,
    decreases s.len(),
{
    if s.len() > 0 {
        assert(!is_body(s[0]));
        let rest = s.drop_first();
        assert forall|j: int| 0 <= j < rest.len() implies !is_body(#[trigger] rest[j]) by {
            assert(rest[j] == s[j + 1]);
        }
        lemma_no_body_unchanged(rest);
        assert(seq![s[0]] + rest =~= s);
    }
}

/// The rewrite keeps the tokens before the first brace group in order,
/// replaces that group by the marker block around its unchanged contents,
/// and keeps every token after it.
pub proof fn lemma_first_body_wrapped(s: Seq<TokenView>, i: int)
    requires
        is_first_body(s, i),
    ensures
        rewritten(s) == s.take(i) + seq![wrap_body(s[i])] + s.skip(i + 1),
        wrap_body(s[i]) == wrapped(s[i]->Group_1),
    decreases i,
{
    if i == 0 {
        assert(s.take(0) + seq![wrap_body(s[0])] + s.skip(1) =~= seq![wrap_body(s[0])]
            + s.drop_first());
    } else {
        assert(!is_body(s[0]));
        let rest = s.drop_first();
        assert forall|j: int| 0 <= j < i - 1 implies !is_body(#[trigger] rest[j]) by {
            assert(rest[j] == s[j + 1]);
        }
        lemma_first_body_wrapped(rest, i - 1);
        assert(seq![s[0]] + (rest.take(i - 1) + seq![wrap_body(rest[i - 1])] + rest.skip(i))
            =~= s.take(i) + seq![wrap_body(s[i])] + s.skip(i + 1));
    }
}

/// No group holds itself: wrapping a body always changes it.
proof fn lemma_body_not_inside_itself(inner: Seq<TokenView>)
    ensures
        inner != seq![trust_marker(), TokenView::Group(Delimiter::Brace, inner)],
{
    let g = TokenView::Group(Delimiter::Brace, inner);
    if inner == seq![trust_marker(), g] {
        assert(decreases_to!(g => g->Group_1));
        assert(inner[1] == g);
        assert(decreases_to!(inner => inner[1]));
    }
}

/// Rewriting an already rewritten stream wraps the same body a second time:
/// the rewrite is not idempotent.
pub proof fn lemma_rewrite_twice_wraps_twice(s: Seq<TokenView>, i: int)
    requires
        is_first_body(s, i),
    ensures
        rewritten(rewritten(s)) == s.take(i) + seq![wrap_body(wrap_body(s[i]))] + s.skip(i + 1),
        rewritten(rewritten(s)) != rewritten(s),
{
    lemma_first_body_wrapped(s, i);
    let once = rewritten(s);
    assert(once[i] == wrap_body(s[i]));
    assert forall|j: int| 0 <= j < i implies !is_body(#[trigger] once[j]) by {
        assert(once[j] == s[j]);
    }
    lemma_first_body_wrapped(once, i);
    assert(once.take(i) =~= s.take(i));
    assert(once.skip(i + 1) =~= s.skip(i + 1));
    let twice = rewritten(once);
    assert(twice[i] == wrap_body(once[i]));
    lemma_body_not_inside_itself(s[i]->Group_1);
    assert(twice[i] != once[i]);
}

/// Whether `t` is a group delimited by braces.
fn is_brace_group(t: &Token) -> (r: bool)
    ensures
        r == is_body(t.view()),
{
    match t {
        Token::Group(d, _) => *d == Delimiter::Brace,
        _ => false,
    }
}

/// The marker block around the contents of a body.
fn wrap_contents(inner: Vec<Token>) -> (r: Token)
    ensures
        r.view() == wrapped(views(inner@)),
{
    let ghost inner_view = views(inner@);
    let contents = Token::Group(Delimiter::Brace, inner);
    assert(contents.view() == TokenView::Group(Delimiter::Brace, inner_view)) by {
        assert(contents.view()->Group_1 =~= inner_view);
    }
    let mut items: Vec<Token> = Vec::new();
    items.push(Token::Ident("unsafe".to_owned()));
    items.push(contents);
    assert(items@[0].view() == trust_marker());
    assert(items@[1] == contents);
    let r = Token::Group(Delimiter::Brace, items);
    assert(r.view()->Group_1 =~= wrapped(inner_view)->Group_1);
    r
}

/// Rewrites the tokens of a function so that its body, the first group
/// delimited by braces, sits inside a block opened by the trust marker.
/// Tokens before the body and after it are kept as they are; a stream with
/// no brace group comes back unchanged.
pub fn safe(body: Vec<Token>) -> (r: Vec<Token>)
    ensures
        views(r@) == rewritten(views(body@)),
        (forall|j: int| 0 <= j < body@.len() ==> !is_body(#[trigger] views(body@)[j])) ==> r@
            == body@,
        forall|i: int|
            is_first_body(views(body@), i) ==> views(r@) == views(body@).take(i) + seq![
                wrapped(#[trigger] views(body@)[i]->Group_1),
            ] + views(body@).skip(i + 1),
{
    let ghost s = views(body@);
    let mut tokens = body;
    let mut i: usize = 0;
    while i < tokens.len() && !is_brace_group(&tokens[i])
        invariant
            i <= tokens.len(),
            tokens@ == body@,
            s == views(body@),
            forall|j: int| 0 <= j < i ==> !is_body(#[trigger] s[j]),
        decreases tokens.len() - i,
    {
        assert(s[i as int] == tokens@[i as int].view());
        i = i + 1;
    }
    if i == tokens.len() {
        proof {
            lemma_no_body_unchanged(s);
        }
        return tokens;
    }
    proof {
        lemma_first_body_wrapped(s, i as int);
        assert forall|k: int| is_first_body(s, k) implies k == i by {
            if k < i {
                assert(!is_body(s[k]));
            } else if k > i {
                assert(!is_body(s[i as int]));
            }
        }
    }
    let mut rest = tokens.split_off(i);
    let found = rest.remove(0);
    let replacement = match found {
        Token::Group(_, inner) => wrap_contents(inner),
        other => other,
    };
    assert(replacement.view() == wrap_body(s[i as int])) by {
        assert(found.view()->Group_1 =~= views(found->Group_1@));
    }
    tokens.push(replacement);
    tokens.append(&mut rest);
    assert(views(tokens@) =~= s.take(i as int) + seq![wrap_body(s[i as int])] + s.skip(
        i as int + 1,
    ));
    tokens
}

} // verus!
