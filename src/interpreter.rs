use vstd::prelude::*;

use crate::ast::{lemma_shapes_of_len, shape_of, shapes_of, ArrayType, ObjectType, Shape, JSON};

verus! {

/// The type signature of a node.
pub open spec fn rendered(s: Shape) -> Seq<char>
    decreases s,
{
    match s {
        Shape::Bool => "boolean"@,
        Shape::Number => "number"@,
        Shape::Str(_) => "string"@,
        Shape::Array(b) => "Array<"@ + joined(b) + ">"@,
        Shape::Object(b) => "{{ "@ + members(b) + "}}"@,
        Shape::Error(_) => seq![],
        Shape::Colon => seq![],
    }
}

/// The signatures of `b`, separated by `" | "`.
pub open spec fn joined(b: Seq<Shape>) -> Seq<char>
    decreases b,
{
    if b.len() == 0 {
        seq![]
    } else if b.len() == 1 {
        rendered(b[0])
    } else {
        joined(b.subrange(0, b.len() - 1)) + " | "@ + rendered(b[b.len() - 1])
    }
}

/// One `"key : signature; "` for each key, colon and value in `b`, in order.
pub open spec fn members(b: Seq<Shape>) -> Seq<char>
    decreases b,
{
    if b.len() < 3 {
        seq![]
    } else {
        let key = match b[0] {
            Shape::Str(t) => t,
            _ => rendered(b[0]),
        };
        key + " : "@ + rendered(b[2]) + "; "@ + members(b.subrange(3, b.len() as int))
    }
}

/// Renders the type signature of `node`.
pub fn render(node: &JSON) -> (r: String)
    ensures
        r@ == rendered(shape_of(*node)),
    decreases node,
{
    match node {
        JSON::Bool => String::from_str("boolean"),
        JSON::NumberType => String::from_str("number"),
        JSON::StringType(_) => String::from_str("string"),
        JSON::Array(arr) => iterate_array(arr),
        JSON::Object(object) => iterate_object(object),
        JSON::Error(_) => String::new(),
        JSON::Colon => String::new(),
    }
}

fn iterate_array(arr: &ArrayType) -> (r: String)
    ensures
        r@ == rendered(Shape::Array(shapes_of(arr.body@))),
    decreases arr,
{
    let ghost b = shapes_of(arr.body@);
    proof {
        lemma_shapes_of_len(arr.body@);
    }
    let mut result = String::from_str("Array<");
    let n = arr.body.len();
    let mut k: usize = 0;
    assert(b.subrange(0, 0) =~= Seq::<Shape>::empty());
    assert(result@ =~= "Array<"@ + joined(b.subrange(0, 0)));
    while k < n
        invariant
            n == arr.body.len(),
            b == shapes_of(arr.body@),
            b.len() == n,
            forall|m: int| 0 <= m < n ==> #[trigger] b[m] == shape_of(arr.body@[m]),
            k <= n,
            result@ == "Array<"@ + joined(b.subrange(0, k as int)),
        decreases n - k,
    {
        let element = render(&arr.body[k]);
        if k > 0 {
            result.append(" | ");
        }
        result.append(element.as_str());
        assert(b.subrange(0, k + 1).subrange(0, k as int) =~= b.subrange(0, k as int));
        assert(result@ =~= "Array<"@ + joined(b.subrange(0, k + 1)));
        k = k + 1;
    }
    result.append(">");
    assert(b.subrange(0, n as int) =~= b);
    result
}

fn iterate_object(object: &ObjectType) -> (r: String)
    ensures
        r@ == rendered(Shape::Object(shapes_of(object.body@))),
    decreases object,
{
    let ghost b = shapes_of(object.body@);
    proof {
        lemma_shapes_of_len(object.body@);
    }
    let mut result = String::from_str("{{ ");
    let n = object.body.len();
    let mut i: usize = 0;
    assert(b.subrange(0, n as int) =~= b);
    while n - i >= 3
        invariant
            n == object.body.len(),
            b == shapes_of(object.body@),
            b.len() == n,
            forall|m: int| 0 <= m < n ==> #[trigger] b[m] == shape_of(object.body@[m]),
            i <= n,
            result@ + members(b.subrange(i as int, n as int)) == "{{ "@ + members(b),
        decreases n - i,
    {
        let ghost before = result@;
        // A string key is printed as its own text.
        let key = match &object.body[i] {
            JSON::StringType(text) => text.clone(),
            other => render(other),
        };
        let value = render(&object.body[i + 2]);
        result.append(key.as_str());
        result.append(" : ");
        result.append(value.as_str());
        result.append("; ");
        let ghost rest = b.subrange(i as int, n as int);
        assert(rest[0] == b[i as int]);
        assert(rest[2] == b[i + 2]);
        assert(rest.subrange(3, rest.len() as int) =~= b.subrange(i + 3, n as int));
        assert(result@ + members(b.subrange(i + 3, n as int)) =~= before + members(rest));
        i = i + 3;
    }
    assert(members(b.subrange(i as int, n as int)) == Seq::<char>::empty());
    assert(result@ =~= result@ + members(b.subrange(i as int, n as int)));
    result.append("}}");
    result
}

/// Rendering is a function of the tree alone: two renderings of one node, each meeting what
/// `render` ensures, are the same text.
pub proof fn lemma_render_twice(node: JSON, first: Seq<char>, second: Seq<char>)
    requires
        first == rendered(shape_of(node)),
        second == rendered(shape_of(node)),
    ensures
        first == second,
{
}

/// Something that has a type signature.
pub trait Interpreter: Sized {
    spec fn signature(&self) -> Seq<char>;

    fn run(self) -> (r: String)
        ensures
            r@ == self.signature(),
    ;
}

impl Interpreter for JSON {
    open spec fn signature(&self) -> Seq<char> {
        rendered(shape_of(*self))
    }

    fn run(self) -> (r: String) {
        render(&self)
    }
}

impl Interpreter for ArrayType {
    open spec fn signature(&self) -> Seq<char> {
        rendered(Shape::Array(shapes_of(self.body@)))
    }

    fn run(self) -> (r: String) {
        iterate_array(&self)
    }
}

impl Interpreter for ObjectType {
    open spec fn signature(&self) -> Seq<char> {
        rendered(Shape::Object(shapes_of(self.body@)))
    }

    fn run(self) -> (r: String) {
        iterate_object(&self)
    }
}

} // verus!
