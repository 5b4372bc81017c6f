use vstd::prelude::*;

use crate::token::Position;

verus! {

/// A node of the syntax tree: the type of a JSON value, or a marker the parser keeps.
#[derive(Debug, PartialEq, Eq)]
pub enum JSON {
    Bool,
    /// A string; its text, which serves as the key when the string names an object member.
    StringType(String),
    NumberType,
    Object(ObjectType),
    Array(ArrayType),
    Error(JSONError),
    /// The colon between a key and its value inside an object body.
    Colon,
}

/// The elements of an array, in source order.
#[derive(Debug, PartialEq, Eq)]
pub struct ArrayType {
    pub body: Vec<JSON>,
}

/// The body of an object: key, colon and value for each member, flat, in source order.
#[derive(Debug, PartialEq, Eq)]
pub struct ObjectType {
    pub body: Vec<JSON>,
}

/// A structural error.
#[derive(Debug, Clone, Copy, PartialEq, Eq, Structural)]
pub enum JSONError {
    UnterminatedArray,
    UnterminatedObject,
    /// A closing bracket or brace that closes nothing; the position is where it stands.
    UnexpectedToken(Position),
    /// An array or object opened inside too many others; the position is where it opens.
    TooDeeplyNested(Position),
}

/// The mathematical value of a `JSON` node.
pub enum Shape {
    Bool,
    Str(Seq<char>),
    Number,
    Object(Seq<Shape>),
    Array(Seq<Shape>),
    Error(JSONError),
    Colon,
}

pub open spec fn shape_of(j: JSON) -> Shape
    decreases j,
{
    match j {
        JSON::Bool => Shape::Bool,
        JSON::StringType(s) => Shape::Str(s@),
        JSON::NumberType => Shape::Number,
        JSON::Object(o) => Shape::Object(shapes_of(o.body@)),
        JSON::Array(a) => Shape::Array(shapes_of(a.body@)),
        JSON::Error(e) => Shape::Error(e),
        JSON::Colon => Shape::Colon,
    }
}

pub open spec fn shapes_of(js: Seq<JSON>) -> Seq<Shape>
    decreases js,
{
    if js.len() == 0 {
        seq![]
    } else {
        shapes_of(js.subrange(0, js.len() - 1)).push(shape_of(js[js.len() - 1]))
    }
}

pub proof fn lemma_shapes_of_push(js: Seq<JSON>, j: JSON)
    ensures
        shapes_of(js.push(j)) == shapes_of(js).push(shape_of(j)),
{
    assert(js.push(j).subrange(0, js.len() as int) =~= js);
}

pub proof fn lemma_shapes_of_len(js: Seq<JSON>)
    ensures
        shapes_of(js).len() == js.len(),
        forall|k: int| 0 <= k < js.len() ==> #[trigger] shapes_of(js)[k] == shape_of(js[k]),
    decreases js.len(),
{
    if js.len() > 0 {
        let front = js.subrange(0, js.len() - 1);
        lemma_shapes_of_len(front);
        assert forall|k: int| 0 <= k < js.len() implies #[trigger] shapes_of(js)[k] == shape_of(
            js[k],
        ) by {
            if k < js.len() - 1 {
                assert(front[k] == js[k]);
            }
        }
    }
}

} // verus!
