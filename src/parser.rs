use vstd::prelude::*;

use crate::ast::{lemma_shapes_of_push, shape_of, shapes_of, ArrayType, JSONError, ObjectType, Shape, JSON};
use crate::token::{records, Token, TokenRecord, TokenView, TokenWithContext};

verus! {

/// Tokens that only separate values: commas, newlines and whitespace.
pub open spec fn is_separator(t: TokenView) -> bool {
    t is Comma || t is NextLine || t is Whitespace
}

/// The token that closes an object body, when `object`, or an array body.
pub open spec fn is_closer(t: TokenView, object: bool) -> bool {
    if object {
        t is RightBrace
    } else {
        t is RightBracket
    }
}

/// The index after a closing token at `i`: a separator right after it is taken along.
pub open spec fn closing_end(t: Seq<TokenRecord>, i: int) -> int {
    if i + 1 < t.len() && is_separator(t[i + 1].token) {
        i + 2
    } else {
        i + 1
    }
}

/// How many arrays and objects may be open at once. Opening one more stops the parse with
/// `JSONError::TooDeeplyNested`.
pub const MAX_NESTING: usize = 256;

/// The error of an array (or an object, when `object`) whose closing token never comes.
pub open spec fn unterminated(object: bool) -> JSONError {
    if object {
        JSONError::UnterminatedObject
    } else {
        JSONError::UnterminatedArray
    }
}

/// Whether `e` says that the tokens ran out inside an array or an object.
pub open spec fn ran_out(e: Shape) -> bool {
    e == Shape::Error(JSONError::UnterminatedArray) || e == Shape::Error(
        JSONError::UnterminatedObject,
    )
}

/// The node that starts at token `i`, inside `depth` open arrays and objects, and the index
/// after it. Callers use it for `0 <= i < t.len()` only.
pub open spec fn element(t: Seq<TokenRecord>, i: int, depth: nat) -> (Shape, int)
    decreases t.len() - i, 0int,
{
    if 0 <= i < t.len() {
        match t[i].token {
            TokenView::DigitLiteral(_) => (Shape::Number, i + 1),
            TokenView::StringLiteral(v) => (Shape::Str(v), i + 1),
            TokenView::True => (Shape::Bool, i + 1),
            TokenView::False => (Shape::Bool, i + 1),
            TokenView::Colon => (Shape::Colon, i + 1),
            TokenView::LeftBracket => if depth >= MAX_NESTING {
                (Shape::Error(JSONError::TooDeeplyNested(t[i].position)), t.len() as int)
            } else {
                container_from(t, i + 1, seq![], false, depth + 1)
            },
            TokenView::LeftBrace => if depth >= MAX_NESTING {
                (Shape::Error(JSONError::TooDeeplyNested(t[i].position)), t.len() as int)
            } else {
                container_from(t, i + 1, seq![], true, depth + 1)
            },
            _ => (Shape::Error(JSONError::UnexpectedToken(t[i].position)), i + 1),
        }
    } else {
        (Shape::Colon, i)
    }
}

/// The rest of an array body (or an object body, when `object`) from token `i` on, with
/// `body` read so far and `depth` arrays and objects open, this one included: the finished
/// node and the index after it.
pub open spec fn container_from(
    t: Seq<TokenRecord>,
    i: int,
    body: Seq<Shape>,
    object: bool,
    depth: nat,
) -> (
    Shape,
    int,
)
    decreases t.len() - i, 1int,
{
    if 0 <= i < t.len() {
        if is_closer(t[i].token, object) {
            if object {
                (Shape::Object(body), closing_end(t, i))
            } else {
                (Shape::Array(body), closing_end(t, i))
            }
        } else if is_separator(t[i].token) {
            container_from(t, i + 1, body, object, depth)
        } else {
            let (e, j) = element(t, i, depth);
            if ran_out(e) {
                // The tokens ran out inside the element, so before this container's closer.
                (Shape::Error(unterminated(object)), t.len() as int)
            } else if e is Error {
                (e, j)
            } else if i < j <= t.len() {
                container_from(t, j, body.push(e), object, depth)
            } else {
                // Never reached: `element` always moves forward (`lemma_element_advances`).
                (e, j)
            }
        }
    } else {
        (Shape::Error(unterminated(object)), t.len() as int)
    }
}

pub proof fn lemma_element_advances(t: Seq<TokenRecord>, i: int, depth: nat)
    requires
        0 <= i < t.len(),
    ensures
        i < element(t, i, depth).1 <= t.len(),
    decreases t.len() - i, 0int,
{
    if depth < MAX_NESTING {
        match t[i].token {
            TokenView::LeftBracket => lemma_container_advances(t, i + 1, seq![], false, depth + 1),
            TokenView::LeftBrace => lemma_container_advances(t, i + 1, seq![], true, depth + 1),
            _ => {},
        }
    }
}

pub proof fn lemma_container_advances(
    t: Seq<TokenRecord>,
    i: int,
    body: Seq<Shape>,
    object: bool,
    depth: nat,
)
    requires
        0 <= i <= t.len(),
    ensures
        i <= container_from(t, i, body, object, depth).1 <= t.len(),
    decreases t.len() - i, 1int,
{
    if i < t.len() {
        if is_closer(t[i].token, object) {
        } else if is_separator(t[i].token) {
            lemma_container_advances(t, i + 1, body, object, depth);
        } else {
            lemma_element_advances(t, i, depth);
            let (e, j) = element(t, i, depth);
            if !ran_out(e) && !(e is Error) && i < j <= t.len() {
                lemma_container_advances(t, j, body.push(e), object, depth);
            }
        }
    }
}

/// Every top-level node from token `i` on: the nodes, and apart from them the errors, each in
/// order.
pub open spec fn nodes_from(t: Seq<TokenRecord>, i: int) -> (Seq<Shape>, Seq<JSONError>)
    decreases t.len() - i,
{
    if 0 <= i < t.len() {
        if is_separator(t[i].token) {
            nodes_from(t, i + 1)
        } else {
            proof {
                lemma_element_advances(t, i, 0);
            }
            let (e, j) = element(t, i, 0);
            let (rs, es) = nodes_from(t, j);
            match e {
                Shape::Error(x) => (rs, seq![x] + es),
                _ => (seq![e] + rs, es),
            }
        }
    } else {
        (seq![], seq![])
    }
}

/// What `parse` returns for the tokens `t`.
pub open spec fn parsed(t: Seq<TokenRecord>) -> (Seq<Shape>, Seq<JSONError>) {
    nodes_from(t, 0)
}

fn is_separator_token(token: &Token) -> (r: bool)
    ensures
        r == is_separator(token@),
{
    match token {
        Token::Comma => true,
        Token::NextLine => true,
        Token::Whitespace => true,
        _ => false,
    }
}

fn is_closer_token(token: &Token, object: bool) -> (r: bool)
    ensures
        r == is_closer(token@, object),
{
    match token {
        Token::RightBrace => object,
        Token::RightBracket => !object,
        _ => false,
    }
}

/// Whether there is a token at `next` and it is a separator.
fn is_next_token_a_separator(tokens: &[TokenWithContext], next: usize) -> (r: bool)
    ensures
        r == (next < tokens@.len() && is_separator(tokens@[next as int].token@)),
{
    next < tokens.len() && is_separator_token(&tokens[next].token)
}

/// Reads the node that starts at `tokens[*cursor]`, inside `depth` open arrays and objects,
/// and moves `cursor` past it.
fn process_token_to_ast(tokens: &[TokenWithContext], cursor: &mut usize, depth: usize) -> (r: JSON)
    requires
        *old(cursor) < tokens@.len(),
        depth <= MAX_NESTING,
    ensures
        shape_of(r) == element(records(tokens@), *old(cursor) as int, depth as nat).0,
        *final(cursor) == element(records(tokens@), *old(cursor) as int, depth as nat).1,
    decreases tokens@.len() - *old(cursor), 0int,
{
    let ghost t = records(tokens@);
    let i = *cursor;
    assert(t[i as int] == tokens@[i as int]@);
    match &tokens[i].token {
        Token::DigitLiteral(_) => {
            *cursor = i + 1;
            JSON::NumberType
        },
        Token::StringLiteral(text) => {
            *cursor = i + 1;
            JSON::StringType(text.clone())
        },
        Token::True => {
            *cursor = i + 1;
            JSON::Bool
        },
        Token::False => {
            *cursor = i + 1;
            JSON::Bool
        },
        Token::Colon => {
            *cursor = i + 1;
            JSON::Colon
        },
        Token::LeftBracket => {
            if depth >= MAX_NESTING {
                *cursor = tokens.len();
                return JSON::Error(JSONError::TooDeeplyNested(tokens[i].position));
            }
            *cursor = i + 1;
            over_body(tokens, cursor, false, depth + 1)
        },
        Token::LeftBrace => {
            if depth >= MAX_NESTING {
                *cursor = tokens.len();
                return JSON::Error(JSONError::TooDeeplyNested(tokens[i].position));
            }
            *cursor = i + 1;
            over_body(tokens, cursor, true, depth + 1)
        },
        _ => {
            *cursor = i + 1;
            JSON::Error(JSONError::UnexpectedToken(tokens[i].position))
        },
    }
}

/// Reads a top-level array body from `tokens[*cursor]` on, the opening bracket already read,
/// and moves `cursor` past it.
pub fn over_array(tokens: &[TokenWithContext], cursor: &mut usize) -> (r: JSON)
    requires
        *old(cursor) <= tokens@.len(),
    ensures
        shape_of(r) == container_from(records(tokens@), *old(cursor) as int, seq![], false, 1).0,
        *final(cursor) == container_from(records(tokens@), *old(cursor) as int, seq![], false, 1).1,
{
    over_body(tokens, cursor, false, 1)
}

/// Reads a top-level object body from `tokens[*cursor]` on, the opening brace already read,
/// and moves `cursor` past it.
pub fn over_object(tokens: &[TokenWithContext], cursor: &mut usize) -> (r: JSON)
    requires
        *old(cursor) <= tokens@.len(),
    ensures
        shape_of(r) == container_from(records(tokens@), *old(cursor) as int, seq![], true, 1).0,
        *final(cursor) == container_from(records(tokens@), *old(cursor) as int, seq![], true, 1).1,
{
    over_body(tokens, cursor, true, 1)
}

fn over_body(tokens: &[TokenWithContext], cursor: &mut usize, object: bool, depth: usize) -> (r: JSON)
    requires
        *old(cursor) <= tokens@.len(),
        1 <= depth <= MAX_NESTING,
    ensures
        shape_of(r) == container_from(
            records(tokens@),
            *old(cursor) as int,
            seq![],
            object,
            depth as nat,
        ).0,
        *final(cursor) == container_from(
            records(tokens@),
            *old(cursor) as int,
            seq![],
            object,
            depth as nat,
        ).1,
    decreases tokens@.len() - *old(cursor), 1int,
{
    let ghost t = records(tokens@);
    let ghost start = *cursor as int;
    let mut body: Vec<JSON> = Vec::new();
    assert(shapes_of(body@) =~= Seq::<Shape>::empty());
    while *cursor < tokens.len()
        invariant
            start == *old(cursor),
            start <= *cursor <= tokens@.len(),
            1 <= depth <= MAX_NESTING,
            t == records(tokens@),
            container_from(t, *cursor as int, shapes_of(body@), object, depth as nat)
                == container_from(t, start, seq![], object, depth as nat),
        decreases tokens@.len() - *cursor,
    {
        let i = *cursor;
        assert(t[i as int] == tokens@[i as int]@);
        if is_closer_token(&tokens[i].token, object) {
            if i + 1 < tokens.len() {
                assert(t[i + 1] == tokens@[i + 1]@);
            }
            if is_next_token_a_separator(tokens, i + 1) {
                *cursor = i + 2;
            } else {
                *cursor = i + 1;
            }
            if object {
                return JSON::Object(ObjectType { body });
            } else {
                return JSON::Array(ArrayType { body });
            }
        } else if is_separator_token(&tokens[i].token) {
            *cursor = i + 1;
        } else {
            proof {
                lemma_element_advances(t, i as int, depth as nat);
            }
            let element = process_token_to_ast(tokens, cursor, depth);
            match element {
                JSON::Error(JSONError::UnterminatedArray) | JSON::Error(
                    JSONError::UnterminatedObject,
                ) => {
                    // The tokens ran out before this container's closer.
                    *cursor = tokens.len();
                    if object {
                        return JSON::Error(JSONError::UnterminatedObject);
                    } else {
                        return JSON::Error(JSONError::UnterminatedArray);
                    }
                },
                JSON::Error(_) => {
                    return element;
                },
                _ => {},
            }
            let ghost before = body@;
            body.push(element);
            proof {
                lemma_shapes_of_push(before, element);
            }
        }
    }
    if object {
        JSON::Error(JSONError::UnterminatedObject)
    } else {
        JSON::Error(JSONError::UnterminatedArray)
    }
}

/// Parses the tokens into their top-level nodes and, apart from them, the structural errors.
pub fn parse(tokens: &[TokenWithContext]) -> (r: (Vec<JSON>, Vec<JSONError>))
    ensures
        shapes_of(r.0@) == parsed(records(tokens@)).0,
        r.1@ == parsed(records(tokens@)).1,
{
    let ghost t = records(tokens@);
    let mut results: Vec<JSON> = Vec::new();
    let mut errors: Vec<JSONError> = Vec::new();
    let mut cursor: usize = 0;
    assert(shapes_of(results@) =~= Seq::<Shape>::empty());
    assert(shapes_of(results@) + nodes_from(t, 0).0 =~= nodes_from(t, 0).0);
    assert(errors@ + nodes_from(t, 0).1 =~= nodes_from(t, 0).1);
    while cursor < tokens.len()
        invariant
            cursor <= tokens@.len(),
            t == records(tokens@),
            shapes_of(results@) + nodes_from(t, cursor as int).0 == nodes_from(t, 0).0,
            errors@ + nodes_from(t, cursor as int).1 == nodes_from(t, 0).1,
        decreases tokens@.len() - cursor,
    {
        let i = cursor;
        assert(t[i as int] == tokens@[i as int]@);
        if is_separator_token(&tokens[i].token) {
            cursor = i + 1;
        } else {
            proof {
                lemma_element_advances(t, i as int, 0);
            }
            let element = process_token_to_ast(tokens, &mut cursor, 0);
            let ghost rs = results@;
            let ghost es = errors@;
            match element {
                JSON::Error(error) => {
                    errors.push(error);
                    assert(errors@ + nodes_from(t, cursor as int).1 =~= es + nodes_from(
                        t,
                        i as int,
                    ).1);
                    assert(shapes_of(results@) + nodes_from(t, cursor as int).0 =~= shapes_of(rs)
                        + nodes_from(t, i as int).0);
                },
                element => {
                    results.push(element);
                    proof {
                        lemma_shapes_of_push(rs, element);
                    }
                    assert(shapes_of(results@) + nodes_from(t, cursor as int).0 =~= shapes_of(rs)
                        + nodes_from(t, i as int).0);
                    assert(errors@ + nodes_from(t, cursor as int).1 =~= es + nodes_from(
                        t,
                        i as int,
                    ).1);
                },
            }
        }
    }
    assert(shapes_of(results@) =~= shapes_of(results@) + nodes_from(t, cursor as int).0);
    assert(errors@ =~= errors@ + nodes_from(t, cursor as int).1);
    (results, errors)
}

} // verus!
