use vstd::prelude::*;

use crate::ast::{JSONError, Shape};
use crate::interpreter::{render, rendered};
use crate::parser::{container_from, element, is_separator, nodes_from, parse, parsed};
use crate::scanner::{
    position_at, raw_scan, record, run_end, scan, scanned, sorted_out, step, word_false, word_true, CharClass,
    ScannerError,
};
use crate::token::{spec_is_digit, TokenRecord, TokenView};

verus! {

/// A diagnostic of the whole pipeline: a lexical or a structural error.
#[derive(Debug, Clone, Copy, PartialEq, Eq, Structural)]
pub enum Diagnostic {
    Scan(ScannerError),
    Parse(JSONError),
}

/// Every lexical error, then every structural error, each in order.
pub open spec fn diagnostics_of(lexical: Seq<ScannerError>, structural: Seq<JSONError>) -> Seq<
    Diagnostic,
> {
    lexical.map_values(|e: ScannerError| Diagnostic::Scan(e)) + structural.map_values(
        |e: JSONError| Diagnostic::Parse(e),
    )
}

/// Scans, parses and renders `source`: the signature of each top-level node, in order, and
/// every diagnostic.
pub fn infer_type(source: &str) -> (r: (Vec<String>, Vec<Diagnostic>))
    requires
        source@.len() < usize::MAX,
    ensures
        r.0@.len() == parsed(scanned(source@).0).0.len(),
        forall|k: int|
            0 <= k < r.0@.len() ==> #[trigger] r.0@[k]@ == rendered(
                parsed(scanned(source@).0).0[k],
            ),
        r.1@ == diagnostics_of(scanned(source@).1, parsed(scanned(source@).0).1),
{
    let (tokens, lexical) = scan(source);
    let (nodes, structural) = parse(tokens.as_slice());
    proof {
        crate::ast::lemma_shapes_of_len(nodes@);
    }
    let mut signatures: Vec<String> = Vec::new();
    let mut k: usize = 0;
    while k < nodes.len()
        invariant
            k <= nodes.len(),
            signatures@.len() == k,
            forall|m: int|
                0 <= m < k ==> #[trigger] signatures@[m]@ == rendered(
                    crate::ast::shape_of(nodes@[m]),
                ),
        decreases nodes.len() - k,
    {
        signatures.push(render(&nodes[k]));
        k = k + 1;
    }
    let mut diagnostics: Vec<Diagnostic> = Vec::new();
    let mut k: usize = 0;
    while k < lexical.len()
        invariant
            k <= lexical.len(),
            diagnostics@ == lexical@.subrange(0, k as int).map_values(
                |e: ScannerError| Diagnostic::Scan(e),
            ),
        decreases lexical.len() - k,
    {
        diagnostics.push(Diagnostic::Scan(lexical[k]));
        k = k + 1;
        assert(diagnostics@ =~= lexical@.subrange(0, k as int).map_values(
            |e: ScannerError| Diagnostic::Scan(e),
        ));
    }
    let ghost front = diagnostics@;
    assert(front =~= lexical@.map_values(|e: ScannerError| Diagnostic::Scan(e)));
    let mut k: usize = 0;
    while k < structural.len()
        invariant
            k <= structural.len(),
            diagnostics@ == front + structural@.subrange(0, k as int).map_values(
                |e: JSONError| Diagnostic::Parse(e),
            ),
        decreases structural.len() - k,
    {
        diagnostics.push(Diagnostic::Parse(structural[k]));
        k = k + 1;
        assert(diagnostics@ =~= front + structural@.subrange(0, k as int).map_values(
            |e: JSONError| Diagnostic::Parse(e),
        ));
    }
    assert(structural@.subrange(0, structural.len() as int) =~= structural@);
    (signatures, diagnostics)
}

/// A literal value as it is written in source text.
pub enum Scalar {
    Number(Seq<char>),
    Text(Seq<char>),
    Boolean(bool),
}

/// A number starts with a digit and goes on with digits and dots; a string holds no quote and
/// no newline.
pub open spec fn scalar_ok(x: Scalar) -> bool {
    match x {
        Scalar::Number(d) => d.len() >= 1 && spec_is_digit(d[0]) && forall|k: int|
            1 <= k < d.len() ==> CharClass::Digits.spec_accepts(#[trigger] d[k]),
        Scalar::Text(t) => forall|k: int|
            0 <= k < t.len() ==> CharClass::StringBody.spec_accepts(#[trigger] t[k]),
        Scalar::Boolean(_) => true,
    }
}

pub open spec fn scalar_text(x: Scalar) -> Seq<char> {
    match x {
        Scalar::Number(d) => d,
        Scalar::Text(t) => seq!['"'] + t + seq!['"'],
        Scalar::Boolean(b) => if b {
            word_true()
        } else {
            word_false()
        },
    }
}

pub open spec fn scalar_token(x: Scalar) -> TokenView {
    match x {
        Scalar::Number(d) => TokenView::DigitLiteral(d),
        Scalar::Text(t) => TokenView::StringLiteral(t),
        Scalar::Boolean(b) => if b {
            TokenView::True
        } else {
            TokenView::False
        },
    }
}

pub open spec fn scalar_shape(x: Scalar) -> Shape {
    match x {
        Scalar::Number(_) => Shape::Number,
        Scalar::Text(t) => Shape::Str(t),
        Scalar::Boolean(_) => Shape::Bool,
    }
}

pub open spec fn type_word(x: Scalar) -> Seq<char> {
    match x {
        Scalar::Number(_) => "number"@,
        Scalar::Text(_) => "string"@,
        Scalar::Boolean(_) => "boolean"@,
    }
}

/// A piece of source text: a punctuation character, a space, a newline, or a literal.
pub enum Atom {
    Punct(char),
    Space,
    Break,
    Value(Scalar),
}

pub open spec fn is_punct(c: char) -> bool {
    c == '[' || c == ']' || c == '{' || c == '}' || c == ':' || c == ','
}

pub open spec fn punct_token(c: char) -> TokenView {
    if c == '[' {
        TokenView::LeftBracket
    } else if c == ']' {
        TokenView::RightBracket
    } else if c == '{' {
        TokenView::LeftBrace
    } else if c == '}' {
        TokenView::RightBrace
    } else if c == ':' {
        TokenView::Colon
    } else {
        TokenView::Comma
    }
}

pub open spec fn atom_text(a: Atom) -> Seq<char> {
    match a {
        Atom::Punct(c) => seq![c],
        Atom::Space => seq![' '],
        Atom::Break => seq!['\n'],
        Atom::Value(x) => scalar_text(x),
    }
}

pub open spec fn text_of(atoms: Seq<Atom>) -> Seq<char>
    decreases atoms.len(),
{
    if atoms.len() == 0 {
        seq![]
    } else {
        atom_text(atoms[0]) + text_of(atoms.drop_first())
    }
}

/// The tokens that the atoms scan to, spaces left out.
pub open spec fn kinds_of(atoms: Seq<Atom>) -> Seq<TokenView>
    decreases atoms.len(),
{
    if atoms.len() == 0 {
        seq![]
    } else {
        match atoms[0] {
            Atom::Punct(c) => seq![punct_token(c)] + kinds_of(atoms.drop_first()),
            Atom::Space => kinds_of(atoms.drop_first()),
            Atom::Break => seq![TokenView::NextLine] + kinds_of(atoms.drop_first()),
            Atom::Value(x) => seq![scalar_token(x)] + kinds_of(atoms.drop_first()),
        }
    }
}

/// Every atom is well formed and no literal is directly followed by another.
pub open spec fn atoms_ok(atoms: Seq<Atom>) -> bool
    decreases atoms.len(),
{
    if atoms.len() == 0 {
        true
    } else {
        &&& match atoms[0] {
            Atom::Punct(c) => is_punct(c),
            Atom::Space => true,
            Atom::Break => true,
            Atom::Value(x) => scalar_ok(x) && (atoms.len() > 1 ==> !(atoms[1] is Value)),
        }
        &&& atoms_ok(atoms.drop_first())
    }
}

pub open spec fn tokens_of(ts: Seq<TokenRecord>) -> Seq<TokenView> {
    ts.map_values(|t: TokenRecord| t.token)
}

pub proof fn lemma_sorted_out_cons(r: Result<TokenRecord, ScannerError>, rest: Seq<Result<TokenRecord, ScannerError>>)
    ensures
        sorted_out(seq![r] + rest) == match r {
            Ok(t) => if t.token is Whitespace {
                sorted_out(rest)
            } else {
                (seq![t] + sorted_out(rest).0, sorted_out(rest).1)
            },
            Err(e) => (sorted_out(rest).0, seq![e] + sorted_out(rest).1),
        },
    decreases rest.len(),
{
    if rest.len() == 0 {
        assert((seq![r] + rest).drop_last() =~= Seq::<Result<TokenRecord, ScannerError>>::empty());
        assert(sorted_out(Seq::<Result<TokenRecord, ScannerError>>::empty()) == (Seq::<TokenRecord>::empty(), Seq::<ScannerError>::empty()));
        assert(seq![r] + rest =~= seq![r]);
        match r {
            Ok(t) => {
                assert(seq![t] + Seq::<TokenRecord>::empty() =~= Seq::<TokenRecord>::empty().push(t));
            },
            Err(e) => {
                assert(seq![e] + Seq::<ScannerError>::empty() =~= Seq::<ScannerError>::empty().push(e));
            },
        }
    } else {
        let front = rest.drop_last();
        lemma_sorted_out_cons(r, front);
        assert((seq![r] + rest).drop_last() =~= seq![r] + front);
        assert((seq![r] + rest).last() == rest.last());
        let (ts, es) = sorted_out(front);
        match r {
            Ok(t) => {
                assert((seq![t] + ts).push(t) =~= seq![t] + ts.push(t)) by {
                }
                match rest.last() {
                    Ok(u) => {
                        assert((seq![t] + ts).push(u) =~= seq![t] + ts.push(u));
                    },
                    Err(x) => {},
                }
            },
            Err(e) => {
                match rest.last() {
                    Ok(u) => {},
                    Err(x) => {
                        assert((seq![e] + es).push(x) =~= seq![e] + es.push(x));
                    },
                }
            },
        }
    }
}

pub proof fn lemma_run_end_exact(s: Seq<char>, a: int, b: int, class: CharClass)
    requires
        0 <= a <= b <= s.len(),
        forall|k: int| a <= k < b ==> class.spec_accepts(#[trigger] s[k]),
        b < s.len() ==> !class.spec_accepts(s[b]),
    ensures
        run_end(s, a, class) == b,
    decreases b - a,
{
    if a < b {
        lemma_run_end_exact(s, a + 1, b, class);
    }
}

pub open spec fn atom_token(a: Atom) -> TokenView {
    match a {
        Atom::Punct(c) => punct_token(c),
        Atom::Space => TokenView::Whitespace,
        Atom::Break => TokenView::NextLine,
        Atom::Value(x) => scalar_token(x),
    }
}

/// Scanning at `p`, where the well-formed atom `a` is written and is followed by a character
/// that does not continue it, yields the atom's token and moves past its text.
proof fn lemma_step_atom(s: Seq<char>, p: int, a: Atom)
    requires
        0 <= p,
        p + atom_text(a).len() <= s.len(),
        s.subrange(p, p + atom_text(a).len()) == atom_text(a),
        match a {
            Atom::Punct(c) => is_punct(c),
            Atom::Space => true,
            Atom::Break => true,
            Atom::Value(x) => scalar_ok(x),
        },
        a is Value && p + atom_text(a).len() < s.len() ==> (is_punct(s[p + atom_text(a).len()])
            || s[p + atom_text(a).len()] == ' ' || s[p + atom_text(a).len()] == '\n'),
    ensures
        step(s, p) == (
            Ok::<TokenRecord, ScannerError>(
                record(s, p, p + atom_text(a).len(), atom_token(a)),
            ),
            p + atom_text(a).len(),
        ),
{
    let w = atom_text(a);
    let q = p + w.len();
    assert forall|k: int| 0 <= k < w.len() implies s[p + k] == w[k] by {
        assert(s.subrange(p, q)[k] == s[p + k]);
    }
    match a {
        Atom::Punct(c) => {
            assert(s[p] == w[0]);
        },
        Atom::Space => {
            assert(s[p] == w[0]);
        },
        Atom::Break => {
            assert(s[p] == w[0]);
        },
        Atom::Value(x) => {
            match x {
                Scalar::Number(d) => {
                    assert(s[p] == d[0]);
                    assert forall|k: int| p + 1 <= k < q implies CharClass::Digits.spec_accepts(
                        #[trigger] s[k],
                    ) by {
                        assert(s[p + (k - p)] == w[k - p]);
                    }
                    lemma_run_end_exact(s, p + 1, q, CharClass::Digits);
                    assert(s.subrange(p, q) =~= d);
                },
                Scalar::Text(t) => {
                    assert(s[p] == w[0]);
                    assert forall|k: int|
                        p + 1 <= k < p + 1 + t.len() implies CharClass::StringBody.spec_accepts(
                        #[trigger] s[k],
                    ) by {
                        assert(s[p + (k - p)] == w[k - p]);
                        assert(w[k - p] == t[k - p - 1]);
                    }
                    assert(s[p + 1 + t.len()] == w[1 + t.len() as int]);
                    lemma_run_end_exact(s, p + 1, p + 1 + t.len(), CharClass::StringBody);
                    assert(s.subrange(p + 1, p + 1 + t.len()) =~= t) by {
                        assert forall|k: int| 0 <= k < t.len() implies s.subrange(
                            p + 1,
                            p + 1 + t.len(),
                        )[k] == t[k] by {
                            assert(s[p + (k + 1)] == w[k + 1]);
                        }
                    }
                },
                Scalar::Boolean(b) => {
                    assert(s[p] == w[0]);
                    assert forall|k: int| p + 1 <= k < q implies CharClass::Letters.spec_accepts(
                        #[trigger] s[k],
                    ) by {
                        assert(s[p + (k - p)] == w[k - p]);
                    }
                    lemma_run_end_exact(s, p + 1, q, CharClass::Letters);
                    assert(s.subrange(p, q) =~= w);
                    assert(word_true() != word_false()) by {
                        assert(word_true().len() != word_false().len());
                    }
                },
            }
        },
    }
}

/// Scanning the text of well-formed atoms yields no error and, spaces left out, the atoms'
/// tokens in order.
pub proof fn lemma_scan_atoms(s: Seq<char>, p: int, atoms: Seq<Atom>)
    requires
        0 <= p <= s.len(),
        s.subrange(p, s.len() as int) == text_of(atoms),
        atoms_ok(atoms),
    ensures
        sorted_out(raw_scan(s, p)).1 == Seq::<ScannerError>::empty(),
        tokens_of(sorted_out(raw_scan(s, p)).0) == kinds_of(atoms),
    decreases atoms.len(),
{
    if atoms.len() == 0 {
        assert(s.subrange(p, s.len() as int).len() == 0);
        assert(raw_scan(s, p) == Seq::<Result<TokenRecord, ScannerError>>::empty());
        assert(tokens_of(Seq::<TokenRecord>::empty()) =~= Seq::<TokenView>::empty());
    } else {
        let a = atoms[0];
        let rest = atoms.drop_first();
        let w = atom_text(a);
        let q = p + w.len();
        assert(s.subrange(p, s.len() as int) == w + text_of(rest));
        assert(s.subrange(p, q) =~= w) by {
            assert forall|k: int| 0 <= k < w.len() implies s.subrange(p, q)[k] == w[k] by {
                assert(s.subrange(p, s.len() as int)[k] == (w + text_of(rest))[k]);
            }
        }
        assert(s.subrange(q, s.len() as int) =~= text_of(rest)) by {
            assert forall|k: int| 0 <= k < text_of(rest).len() implies s.subrange(
                q,
                s.len() as int,
            )[k] == text_of(rest)[k] by {
                assert(s.subrange(p, s.len() as int)[w.len() + k] == (w + text_of(rest))[w.len()
                    + k]);
            }
        }
        if a is Value && q < s.len() {
            assert(rest.len() > 0);
            assert(text_of(rest) == atom_text(rest[0]) + text_of(rest.drop_first()));
            assert(s[q] == s.subrange(q, s.len() as int)[0]);
            assert(!(rest[0] is Value));
            assert(atoms_ok(rest));
            assert(s[q] == atom_text(rest[0])[0]);
            match rest[0] {
                Atom::Punct(c) => assert(is_punct(s[q])),
                Atom::Space => assert(s[q] == ' '),
                Atom::Break => assert(s[q] == '\n'),
                Atom::Value(_) => {},
            }
        }
        lemma_step_atom(s, p, a);
        crate::scanner::lemma_step_advances(s, p);
        assert(raw_scan(s, p) == seq![step(s, p).0] + raw_scan(s, q));
        lemma_sorted_out_cons(step(s, p).0, raw_scan(s, q));
        lemma_scan_atoms(s, q, rest);
        let t = record(s, p, q, atom_token(a));
        let ts = sorted_out(raw_scan(s, q)).0;
        assert(tokens_of(seq![t] + ts) =~= seq![t.token] + tokens_of(ts));
    }
}

/// Spaces and newlines only.
pub open spec fn blank(g: Seq<Atom>) -> bool {
    forall|k: int| 0 <= k < g.len() ==> (#[trigger] g[k] is Space || g[k] is Break)
}

/// Gaps of spaces and newlines, enough of them for `n` elements.
pub open spec fn gaps_ok(gaps: Seq<Seq<Atom>>, n: nat) -> bool {
    &&& gaps.len() >= 2 * n + 1
    &&& forall|k: int| 0 <= k < gaps.len() ==> blank(#[trigger] gaps[k])
}

/// The elements of an array and its closing bracket, with the gaps `gaps[0]`, `gaps[1]`, ...
/// around each element and each comma: `g0 x0 g1 , g2 x1 g3 , ... ]`.
pub open spec fn elements_atoms(items: Seq<Scalar>, gaps: Seq<Seq<Atom>>) -> Seq<Atom>
    decreases items.len(),
{
    if items.len() == 0 {
        gaps[0] + seq![Atom::Punct(']')]
    } else if items.len() == 1 {
        gaps[0] + seq![Atom::Value(items[0])] + gaps[1] + seq![Atom::Punct(']')]
    } else {
        gaps[0] + seq![Atom::Value(items[0])] + gaps[1] + seq![Atom::Punct(',')] + elements_atoms(
            items.drop_first(),
            gaps.subrange(2, gaps.len() as int),
        )
    }
}

pub open spec fn array_atoms(items: Seq<Scalar>, gaps: Seq<Seq<Atom>>) -> Seq<Atom> {
    seq![Atom::Punct('[')] + elements_atoms(items, gaps)
}

/// The source text of an array of literals: `[`, the literals separated by commas, `]`, with
/// any spaces and newlines around each literal and each comma.
pub open spec fn array_source(items: Seq<Scalar>, gaps: Seq<Seq<Atom>>) -> Seq<char> {
    text_of(array_atoms(items, gaps))
}

pub proof fn lemma_kinds_append(x: Seq<Atom>, y: Seq<Atom>)
    ensures
        kinds_of(x + y) == kinds_of(x) + kinds_of(y),
    decreases x.len(),
{
    if x.len() == 0 {
        assert(x + y =~= y);
        assert(kinds_of(x) + kinds_of(y) =~= kinds_of(y));
    } else {
        lemma_kinds_append(x.drop_first(), y);
        assert((x + y).drop_first() =~= x.drop_first() + y);
        assert((x + y)[0] == x[0]);
        match x[0] {
            Atom::Punct(c) => {
                assert(seq![punct_token(c)] + kinds_of(x.drop_first()) + kinds_of(y) =~= seq![
                    punct_token(c),
                ] + (kinds_of(x.drop_first()) + kinds_of(y)));
            },
            Atom::Space => {},
            Atom::Break => {
                assert(seq![TokenView::NextLine] + kinds_of(x.drop_first()) + kinds_of(y) =~= seq![
                    TokenView::NextLine,
                ] + (kinds_of(x.drop_first()) + kinds_of(y)));
            },
            Atom::Value(v) => {
                assert(seq![scalar_token(v)] + kinds_of(x.drop_first()) + kinds_of(y) =~= seq![
                    scalar_token(v),
                ] + (kinds_of(x.drop_first()) + kinds_of(y)));
            },
        }
    }
}

/// Blanks scan to newline tokens only, and put in front of well-formed atoms keep them well
/// formed.
pub proof fn lemma_blank(g: Seq<Atom>, rest: Seq<Atom>)
    requires
        blank(g),
    ensures
        forall|k: int| 0 <= k < kinds_of(g).len() ==> #[trigger] kinds_of(g)[k] == TokenView::NextLine,
        atoms_ok(rest) ==> atoms_ok(g + rest),
    decreases g.len(),
{
    if g.len() > 0 {
        let g1 = g.drop_first();
        assert(blank(g1)) by {
            assert forall|k: int| 0 <= k < g1.len() implies (#[trigger] g1[k] is Space
                || g1[k] is Break) by {
                assert(g1[k] == g[k + 1]);
            }
        }
        lemma_blank(g1, rest);
        assert((g + rest).drop_first() =~= g1 + rest);
        assert((g + rest)[0] == g[0]);
        assert(g[0] is Space || g[0] is Break);
    }
}

/// A literal, then blanks, then well-formed atoms that do not start with a literal.
proof fn lemma_value_then_blank(x: Scalar, g: Seq<Atom>, rest: Seq<Atom>)
    requires
        scalar_ok(x),
        blank(g),
        atoms_ok(rest),
        rest.len() > 0,
        !(rest[0] is Value),
    ensures
        atoms_ok(seq![Atom::Value(x)] + g + rest),
{
    lemma_blank(g, rest);
    let all = seq![Atom::Value(x)] + g + rest;
    assert(all.drop_first() =~= g + rest);
    if g.len() > 0 {
        assert(all[1] == g[0]);
        assert(g[0] is Space || g[0] is Break);
    } else {
        assert(all[1] == rest[0]);
    }
}

/// The texts in `names`, separated by `" | "`.
pub open spec fn separated(names: Seq<Seq<char>>) -> Seq<char>
    decreases names.len(),
{
    if names.len() == 0 {
        seq![]
    } else if names.len() == 1 {
        names[0]
    } else {
        separated(names.drop_last()) + " | "@ + names.last()
    }
}

pub open spec fn scalar_shapes(items: Seq<Scalar>) -> Seq<Shape> {
    items.map_values(|x: Scalar| scalar_shape(x))
}

pub open spec fn type_words(items: Seq<Scalar>) -> Seq<Seq<char>> {
    items.map_values(|x: Scalar| type_word(x))
}

proof fn lemma_punct_ok(c: char, rest: Seq<Atom>)
    requires
        is_punct(c),
        atoms_ok(rest),
    ensures
        atoms_ok(seq![Atom::Punct(c)] + rest),
        kinds_of(seq![Atom::Punct(c)] + rest) == seq![punct_token(c)] + kinds_of(rest),
{
    assert((seq![Atom::Punct(c)] + rest).drop_first() =~= rest);
}

proof fn lemma_elements_atoms_ok(items: Seq<Scalar>, gaps: Seq<Seq<Atom>>)
    requires
        forall|k: int| 0 <= k < items.len() ==> scalar_ok(#[trigger] items[k]),
        gaps_ok(gaps, items.len()),
    ensures
        atoms_ok(elements_atoms(items, gaps)),
        kinds_of(elements_atoms(items, gaps)) == if items.len() == 0 {
            kinds_of(gaps[0]) + seq![TokenView::RightBracket]
        } else if items.len() == 1 {
            kinds_of(gaps[0]) + seq![scalar_token(items[0])] + kinds_of(gaps[1]) + seq![
                TokenView::RightBracket,
            ]
        } else {
            kinds_of(gaps[0]) + seq![scalar_token(items[0])] + kinds_of(gaps[1]) + seq![
                TokenView::Comma,
            ] + kinds_of(elements_atoms(items.drop_first(), gaps.subrange(2, gaps.len() as int)))
        },
    decreases items.len(),
{
    let g0 = gaps[0];
    assert(blank(g0));
    let empty = Seq::<Atom>::empty();
    assert(atoms_ok(empty));
    assert(kinds_of(empty) =~= Seq::<TokenView>::empty());
    if items.len() == 0 {
        lemma_punct_ok(']', empty);
        let close = seq![Atom::Punct(']')];
        assert(seq![Atom::Punct(']')] + empty =~= close);
        lemma_blank(g0, close);
        lemma_kinds_append(g0, close);
    } else {
        let g1 = gaps[1];
        assert(blank(g1));
        let v = seq![Atom::Value(items[0])];
        assert(kinds_of(v) == seq![scalar_token(items[0])] + kinds_of(v.drop_first()));
        assert(v.drop_first() =~= empty);
        let tail = if items.len() == 1 {
            seq![Atom::Punct(']')]
        } else {
            seq![Atom::Punct(',')] + elements_atoms(
                items.drop_first(),
                gaps.subrange(2, gaps.len() as int),
            )
        };
        if items.len() == 1 {
            lemma_punct_ok(']', empty);
            assert(seq![Atom::Punct(']')] + empty =~= tail);
        } else {
            let rest = items.drop_first();
            let gr = gaps.subrange(2, gaps.len() as int);
            assert forall|k: int| 0 <= k < rest.len() implies scalar_ok(#[trigger] rest[k]) by {
                assert(rest[k] == items[k + 1]);
            }
            assert forall|k: int| 0 <= k < gr.len() implies blank(#[trigger] gr[k]) by {
                assert(gr[k] == gaps[k + 2]);
            }
            lemma_elements_atoms_ok(rest, gr);
            lemma_punct_ok(',', elements_atoms(rest, gr));
        }
        lemma_value_then_blank(items[0], g1, tail);
        let after = v + g1 + tail;
        lemma_blank(g0, after);
        assert(elements_atoms(items, gaps) =~= g0 + after);
        lemma_kinds_append(g0, after);
        lemma_kinds_append(v + g1, tail);
        lemma_kinds_append(v, g1);
        if items.len() == 1 {
            assert(kinds_of(tail) =~= seq![TokenView::RightBracket]);
        }
        assert(kinds_of(elements_atoms(items, gaps)) =~= kinds_of(g0) + seq![
            scalar_token(items[0]),
        ] + kinds_of(g1) + kinds_of(tail));
    }
}

/// Separators from `i` on, `m` of them, are skipped inside an array or object body.
proof fn lemma_skip_separators(
    t: Seq<TokenRecord>,
    i: int,
    m: int,
    body: Seq<Shape>,
    object: bool,
    depth: nat,
)
    requires
        0 <= i,
        0 <= m,
        i + m <= t.len(),
        forall|k: int| i <= k < i + m ==> is_separator(#[trigger] t[k].token),
    ensures
        container_from(t, i, body, object, depth) == container_from(t, i + m, body, object, depth),
    decreases m,
{
    if m > 0 {
        assert(is_separator(t[i].token));
        lemma_skip_separators(t, i + 1, m - 1, body, object, depth);
    }
}

/// Parsing the tokens of array elements, from index `i` on with `body` read so far, closes the
/// array with every literal's node and consumes every token.
proof fn lemma_parse_elements(
    t: Seq<TokenRecord>,
    i: int,
    items: Seq<Scalar>,
    gaps: Seq<Seq<Atom>>,
    body: Seq<Shape>,
)
    requires
        0 <= i <= t.len(),
        forall|k: int| 0 <= k < items.len() ==> scalar_ok(#[trigger] items[k]),
        gaps_ok(gaps, items.len()),
        tokens_of(t).subrange(i, t.len() as int) == kinds_of(elements_atoms(items, gaps)),
    ensures
        container_from(t, i, body, false, 1) == (
            Shape::Array(body + scalar_shapes(items)),
            t.len() as int,
        ),
    decreases items.len(),
{
    lemma_elements_atoms_ok(items, gaps);
    let kk = kinds_of(elements_atoms(items, gaps));
    let u = tokens_of(t).subrange(i, t.len() as int);
    assert(tokens_of(t).len() == t.len());
    assert forall|k: int| 0 <= k < kk.len() implies t[i + k].token == #[trigger] kk[k] by {
        assert(u[k] == tokens_of(t)[i + k]);
    }
    let a0 = kinds_of(gaps[0]);
    lemma_blank(gaps[0], Seq::<Atom>::empty());
    let m0 = a0.len() as int;
    assert forall|k: int| i <= k < i + m0 implies is_separator(#[trigger] t[k].token) by {
        assert(kk[k - i] == a0[k - i]);
    }
    lemma_skip_separators(t, i, m0, body, false, 1);
    if items.len() == 0 {
        assert(kk.len() == t.len() - i);
        assert(kk.len() == m0 + 1);
        assert(kk[m0] == TokenView::RightBracket);
        assert(t[i + m0].token == TokenView::RightBracket);
        assert(i + m0 + 1 == t.len());
        assert(body + scalar_shapes(items) =~= body);
    } else {
        let x = items[0];
        let a1 = kinds_of(gaps[1]);
        lemma_blank(gaps[1], Seq::<Atom>::empty());
        let m1 = a1.len() as int;
        assert(kk.len() == t.len() - i);
        assert(kk.len() >= m0 + 1 + m1 + 1);
        assert(kk[m0] == scalar_token(x));
        assert(t[i + m0].token == scalar_token(x));
        let p = i + m0 + 1;
        assert(element(t, i + m0, 1) == (scalar_shape(x), p));
        let body1 = body.push(scalar_shape(x));
        assert(container_from(t, i + m0, body, false, 1) == container_from(t, p, body1, false, 1));
        assert forall|k: int| p <= k < p + m1 implies is_separator(#[trigger] t[k].token) by {
            assert(kk[k - i] == a1[k - p]);
        }
        lemma_skip_separators(t, p, m1, body1, false, 1);
        let q = p + m1;
        if items.len() == 1 {
            assert(kk[q - i] == TokenView::RightBracket);
            assert(t[q].token == TokenView::RightBracket);
            assert(q + 1 == t.len());
            assert(container_from(t, q, body1, false, 1) == (Shape::Array(body1), q + 1));
            assert(body1 =~= body + scalar_shapes(items));
        } else {
            let rest = items.drop_first();
            let gr = gaps.subrange(2, gaps.len() as int);
            assert(kk[q - i] == TokenView::Comma);
            assert(t[q].token == TokenView::Comma);
            assert(container_from(t, q, body1, false, 1) == container_from(t, q + 1, body1, false, 1));
            assert forall|k: int| 0 <= k < rest.len() implies scalar_ok(#[trigger] rest[k]) by {
                assert(rest[k] == items[k + 1]);
            }
            assert forall|k: int| 0 <= k < gr.len() implies blank(#[trigger] gr[k]) by {
                assert(gr[k] == gaps[k + 2]);
            }
            let kr = kinds_of(elements_atoms(rest, gr));
            assert(kk.len() == t.len() - i);
            assert(kk.len() == m0 + 1 + m1 + 1 + kr.len());
            assert(tokens_of(t).subrange(q + 1, t.len() as int) =~= kr) by {
                assert forall|k: int| 0 <= k < t.len() - (q + 1) implies tokens_of(t).subrange(
                    q + 1,
                    t.len() as int,
                )[k] == kr[k] by {
                    assert(kk[q + 1 - i + k] == kr[k]);
                    assert(tokens_of(t)[q + 1 + k] == t[q + 1 + k].token);
                }
            }
            lemma_parse_elements(t, q + 1, rest, gr, body1);
            assert(body1 + scalar_shapes(rest) =~= body + scalar_shapes(items));
        }
    }
}

proof fn lemma_joined_scalars(items: Seq<Scalar>)
    ensures
        crate::interpreter::joined(scalar_shapes(items)) == separated(type_words(items)),
    decreases items.len(),
{
    let shapes = scalar_shapes(items);
    let words = type_words(items);
    if items.len() >= 2 {
        let front = items.drop_last();
        lemma_joined_scalars(front);
        assert(shapes.subrange(0, shapes.len() - 1) =~= scalar_shapes(front));
        assert(words.drop_last() =~= type_words(front));
        let x = items[items.len() - 1];
        assert(rendered(scalar_shape(x)) == type_word(x));
    } else if items.len() == 1 {
        assert(rendered(scalar_shape(items[0])) == type_word(items[0]));
    }
}

/// Scanning, parsing and rendering a well-formed array of literals, with any spaces and
/// newlines around its literals and commas, gives one array node and no error, and its signature
/// lists the literals' types in source order, separated by `" | "`:
/// `Array<t1 | t2 | ... | tn>`, and `Array<>` for the empty array.
pub proof fn lemma_scalar_array_signature(items: Seq<Scalar>, gaps: Seq<Seq<Atom>>)
    requires
        forall|k: int| 0 <= k < items.len() ==> scalar_ok(#[trigger] items[k]),
        gaps_ok(gaps, items.len()),
    ensures
        ({
            let (tokens, lexical) = scanned(array_source(items, gaps));
            let (nodes, structural) = parsed(tokens);
            &&& lexical.len() == 0
            &&& structural.len() == 0
            &&& nodes == seq![Shape::Array(scalar_shapes(items))]
            &&& rendered(nodes[0]) == "Array<"@ + separated(type_words(items)) + ">"@
        }),
{
    let atoms = array_atoms(items, gaps);
    let s = array_source(items, gaps);
    lemma_elements_atoms_ok(items, gaps);
    lemma_punct_ok('[', elements_atoms(items, gaps));
    assert(s.subrange(0, s.len() as int) =~= s);
    lemma_scan_atoms(s, 0, atoms);
    let tokens = scanned(s).0;
    assert(tokens_of(tokens).len() == tokens.len());
    assert(kinds_of(atoms).len() >= 1);
    assert(tokens_of(tokens).subrange(1, tokens.len() as int) =~= kinds_of(elements_atoms(items, gaps)));
    assert(tokens[0].token == tokens_of(tokens)[0]);
    lemma_parse_elements(tokens, 1, items, gaps, seq![]);
    assert(seq![] + scalar_shapes(items) =~= scalar_shapes(items));
    assert(element(tokens, 0, 0) == (Shape::Array(scalar_shapes(items)), tokens.len() as int));
    assert(nodes_from(tokens, tokens.len() as int) == (Seq::<Shape>::empty(), Seq::<crate::ast::JSONError>::empty()));
    assert(parsed(tokens).0 =~= seq![Shape::Array(scalar_shapes(items))]);
    assert(parsed(tokens).1 =~= Seq::<crate::ast::JSONError>::empty());
    lemma_joined_scalars(items);
}

/// A key holds no quote and no newline.
pub open spec fn key_ok(k: Seq<char>) -> bool {
    forall|m: int| 0 <= m < k.len() ==> CharClass::StringBody.spec_accepts(#[trigger] k[m])
}

/// The members of an object and its closing brace, each `"key": value`, separated by commas,
/// with the gaps `gaps[0]`, `gaps[1]`, ... around each key, colon, value and comma:
/// `g0 "k0" g1 : g2 v0 g3 , g4 "k1" ... }`.
pub open spec fn members_atoms(entries: Seq<(Seq<char>, Scalar)>, gaps: Seq<Seq<Atom>>) -> Seq<
    Atom,
>
    decreases entries.len(),
{
    if entries.len() == 0 {
        gaps[0] + seq![Atom::Punct('}')]
    } else {
        let member = gaps[0] + seq![Atom::Value(Scalar::Text(entries[0].0))] + gaps[1] + seq![
            Atom::Punct(':'),
        ] + gaps[2] + seq![Atom::Value(entries[0].1)] + gaps[3];
        if entries.len() == 1 {
            member + seq![Atom::Punct('}')]
        } else {
            member + seq![Atom::Punct(',')] + members_atoms(
                entries.drop_first(),
                gaps.subrange(4, gaps.len() as int),
            )
        }
    }
}

pub open spec fn object_atoms(entries: Seq<(Seq<char>, Scalar)>, gaps: Seq<Seq<Atom>>) -> Seq<
    Atom,
> {
    seq![Atom::Punct('{')] + members_atoms(entries, gaps)
}

/// The source text of an object whose values are literals: `{`, the members `"key": value`
/// separated by commas, `}`, with any spaces and newlines around each key, colon, value and
/// comma.
pub open spec fn object_source(entries: Seq<(Seq<char>, Scalar)>, gaps: Seq<Seq<Atom>>) -> Seq<
    char,
> {
    text_of(object_atoms(entries, gaps))
}

/// The flat object body: key, colon and value for each member.
pub open spec fn member_shapes(entries: Seq<(Seq<char>, Scalar)>) -> Seq<Shape>
    decreases entries.len(),
{
    if entries.len() == 0 {
        seq![]
    } else {
        seq![Shape::Str(entries[0].0), Shape::Colon, scalar_shape(entries[0].1)] + member_shapes(
            entries.drop_first(),
        )
    }
}

/// `"key : type; "` for each member, in order.
pub open spec fn listing(entries: Seq<(Seq<char>, Scalar)>) -> Seq<char>
    decreases entries.len(),
{
    if entries.len() == 0 {
        seq![]
    } else {
        entries[0].0 + " : "@ + type_word(entries[0].1) + "; "@ + listing(entries.drop_first())
    }
}

pub open spec fn entries_ok(entries: Seq<(Seq<char>, Scalar)>) -> bool {
    forall|m: int| 0 <= m < entries.len() ==> key_ok(#[trigger] entries[m].0) && scalar_ok(entries[m].1)
}

#[verifier::rlimit(40)]
proof fn lemma_members_atoms_ok(entries: Seq<(Seq<char>, Scalar)>, gaps: Seq<Seq<Atom>>)
    requires
        entries_ok(entries),
        gaps_ok(gaps, 2 * entries.len()),
    ensures
        atoms_ok(members_atoms(entries, gaps)),
        kinds_of(members_atoms(entries, gaps)) == if entries.len() == 0 {
            kinds_of(gaps[0]) + seq![TokenView::RightBrace]
        } else {
            kinds_of(gaps[0]) + seq![TokenView::StringLiteral(entries[0].0)] + kinds_of(gaps[1])
                + seq![TokenView::Colon] + kinds_of(gaps[2]) + seq![scalar_token(entries[0].1)]
                + kinds_of(gaps[3]) + if entries.len() == 1 {
                seq![TokenView::RightBrace]
            } else {
                seq![TokenView::Comma] + kinds_of(
                    members_atoms(entries.drop_first(), gaps.subrange(4, gaps.len() as int)),
                )
            }
        },
    decreases entries.len(),
{
    let empty = Seq::<Atom>::empty();
    assert(atoms_ok(empty));
    assert(kinds_of(empty) =~= Seq::<TokenView>::empty());
    assert(blank(gaps[0]));
    if entries.len() == 0 {
        let close = seq![Atom::Punct('}')];
        lemma_punct_ok('}', empty);
        assert(seq![Atom::Punct('}')] + empty =~= close);
        lemma_blank(gaps[0], close);
        lemma_kinds_append(gaps[0], close);
    } else {
        let (k, v) = entries[0];
        assert(key_ok(k) && scalar_ok(v));
        assert(blank(gaps[1]) && blank(gaps[2]) && blank(gaps[3]));
        let tail = if entries.len() == 1 {
            seq![Atom::Punct('}')]
        } else {
            seq![Atom::Punct(',')] + members_atoms(
                entries.drop_first(),
                gaps.subrange(4, gaps.len() as int),
            )
        };
        if entries.len() == 1 {
            lemma_punct_ok('}', empty);
            assert(seq![Atom::Punct('}')] + empty =~= tail);
        } else {
            let rest = entries.drop_first();
            let gr = gaps.subrange(4, gaps.len() as int);
            assert forall|m: int| 0 <= m < rest.len() implies key_ok(#[trigger] rest[m].0)
                && scalar_ok(rest[m].1) by {
                assert(rest[m] == entries[m + 1]);
            }
            assert forall|m: int| 0 <= m < gr.len() implies blank(#[trigger] gr[m]) by {
                assert(gr[m] == gaps[m + 4]);
            }
            lemma_members_atoms_ok(rest, gr);
            lemma_punct_ok(',', members_atoms(rest, gr));
        }
        let vk = seq![Atom::Value(Scalar::Text(k))];
        let vv = seq![Atom::Value(v)];
        let colon = seq![Atom::Punct(':')];
        assert(vk.drop_first() =~= empty);
        assert(vv.drop_first() =~= empty);
        assert(colon.drop_first() =~= empty);
        // From the back: value, gap, tail.
        lemma_value_then_blank(v, gaps[3], tail);
        let x3 = vv + gaps[3] + tail;
        lemma_blank(gaps[2], x3);
        let x2 = gaps[2] + x3;
        lemma_punct_ok(':', x2);
        let x1 = colon + x2;
        assert(scalar_ok(Scalar::Text(k)));
        lemma_value_then_blank(Scalar::Text(k), gaps[1], x1);
        let x0 = vk + gaps[1] + x1;
        lemma_blank(gaps[0], x0);
        assert(members_atoms(entries, gaps) =~= gaps[0] + x0);
        lemma_kinds_append(gaps[0], x0);
        lemma_kinds_append(vk + gaps[1], x1);
        lemma_kinds_append(vk, gaps[1]);
        lemma_kinds_append(gaps[2], x3);
        lemma_kinds_append(vv + gaps[3], tail);
        lemma_kinds_append(vv, gaps[3]);
        if entries.len() == 1 {
            assert(kinds_of(tail) =~= seq![TokenView::RightBrace]);
        }
        let k3 = seq![scalar_token(v)] + kinds_of(gaps[3]) + kinds_of(tail);
        assert(kinds_of(x3) == k3);
        let k2 = kinds_of(gaps[2]) + k3;
        assert(kinds_of(x2) == k2);
        let k1 = seq![TokenView::Colon] + k2;
        assert(kinds_of(x1) == k1);
        let k0 = seq![TokenView::StringLiteral(k)] + kinds_of(gaps[1]) + k1;
        assert(kinds_of(x0) == k0);
        assert(kinds_of(members_atoms(entries, gaps)) == kinds_of(gaps[0]) + k0);
        assert(kinds_of(gaps[0]) + k0 =~= kinds_of(gaps[0]) + seq![
            TokenView::StringLiteral(k),
        ] + kinds_of(gaps[1]) + seq![TokenView::Colon] + kinds_of(gaps[2]) + seq![
            scalar_token(v),
        ] + kinds_of(gaps[3]) + kinds_of(tail));
    }
}

/// Parsing the tokens of object members, from index `i` on with `body` read so far, closes the
/// object with the flat body of every member and consumes every token.
proof fn lemma_parse_members(
    t: Seq<TokenRecord>,
    i: int,
    entries: Seq<(Seq<char>, Scalar)>,
    gaps: Seq<Seq<Atom>>,
    body: Seq<Shape>,
)
    requires
        0 <= i <= t.len(),
        entries_ok(entries),
        gaps_ok(gaps, 2 * entries.len()),
        tokens_of(t).subrange(i, t.len() as int) == kinds_of(members_atoms(entries, gaps)),
    ensures
        container_from(t, i, body, true, 1) == (
            Shape::Object(body + member_shapes(entries)),
            t.len() as int,
        ),
    decreases entries.len(),
{
    lemma_members_atoms_ok(entries, gaps);
    let kk = kinds_of(members_atoms(entries, gaps));
    let u = tokens_of(t).subrange(i, t.len() as int);
    assert(tokens_of(t).len() == t.len());
    assert forall|k: int| 0 <= k < kk.len() implies t[i + k].token == #[trigger] kk[k] by {
        assert(u[k] == tokens_of(t)[i + k]);
    }
    let a0 = kinds_of(gaps[0]);
    lemma_blank(gaps[0], Seq::<Atom>::empty());
    let m0 = a0.len() as int;
    assert forall|k: int| i <= k < i + m0 implies is_separator(#[trigger] t[k].token) by {
        assert(kk[k - i] == a0[k - i]);
    }
    lemma_skip_separators(t, i, m0, body, true, 1);
    if entries.len() == 0 {
        assert(kk.len() == t.len() - i);
        assert(kk.len() == m0 + 1);
        assert(kk[m0] == TokenView::RightBrace);
        assert(t[i + m0].token == TokenView::RightBrace);
        assert(i + m0 + 1 == t.len());
        assert(body + member_shapes(entries) =~= body);
    } else {
        let (key, v) = entries[0];
        let a1 = kinds_of(gaps[1]);
        let a2 = kinds_of(gaps[2]);
        let a3 = kinds_of(gaps[3]);
        lemma_blank(gaps[1], Seq::<Atom>::empty());
        lemma_blank(gaps[2], Seq::<Atom>::empty());
        lemma_blank(gaps[3], Seq::<Atom>::empty());
        let p0 = i + m0;
        let p1 = p0 + 1 + a1.len();
        let p2 = p1 + 1 + a2.len();
        let p3 = p2 + 1 + a3.len();
        assert(kk.len() == t.len() - i);
        assert(kk.len() >= p3 - i + 1);
        assert(kk[p0 - i] == TokenView::StringLiteral(key));
        assert(kk[p1 - i] == TokenView::Colon);
        assert(kk[p2 - i] == scalar_token(v));
        assert(t[p0].token == TokenView::StringLiteral(key));
        assert(t[p1].token == TokenView::Colon);
        assert(t[p2].token == scalar_token(v));
        let b1 = body.push(Shape::Str(key));
        let b2 = b1.push(Shape::Colon);
        let b3 = b2.push(scalar_shape(v));
        assert(element(t, p0, 1) == (Shape::Str(key), p0 + 1));
        assert(element(t, p1, 1) == (Shape::Colon, p1 + 1));
        assert(element(t, p2, 1) == (scalar_shape(v), p2 + 1));
        assert forall|k: int| p0 + 1 <= k < p1 implies is_separator(#[trigger] t[k].token) by {
            assert(kk[k - i] == a1[k - p0 - 1]);
        }
        assert forall|k: int| p1 + 1 <= k < p2 implies is_separator(#[trigger] t[k].token) by {
            assert(kk[k - i] == a2[k - p1 - 1]);
        }
        assert forall|k: int| p2 + 1 <= k < p3 implies is_separator(#[trigger] t[k].token) by {
            assert(kk[k - i] == a3[k - p2 - 1]);
        }
        lemma_skip_separators(t, p0 + 1, a1.len() as int, b1, true, 1);
        lemma_skip_separators(t, p1 + 1, a2.len() as int, b2, true, 1);
        lemma_skip_separators(t, p2 + 1, a3.len() as int, b3, true, 1);
        assert(container_from(t, p0, body, true, 1) == container_from(t, p0 + 1, b1, true, 1));
        assert(container_from(t, p1, b1, true, 1) == container_from(t, p1 + 1, b2, true, 1));
        assert(container_from(t, p2, b2, true, 1) == container_from(t, p2 + 1, b3, true, 1));
        if entries.len() == 1 {
            assert(kk[p3 - i] == TokenView::RightBrace);
            assert(t[p3].token == TokenView::RightBrace);
            assert(p3 + 1 == t.len());
            assert(container_from(t, p3, b3, true, 1) == (Shape::Object(b3), p3 + 1));
            assert(member_shapes(entries.drop_first()) =~= Seq::<Shape>::empty());
            assert(b3 =~= body + member_shapes(entries));
        } else {
            let rest = entries.drop_first();
            let gr = gaps.subrange(4, gaps.len() as int);
            assert(kk[p3 - i] == TokenView::Comma);
            assert(t[p3].token == TokenView::Comma);
            assert(container_from(t, p3, b3, true, 1) == container_from(t, p3 + 1, b3, true, 1));
            assert forall|m: int| 0 <= m < rest.len() implies key_ok(#[trigger] rest[m].0)
                && scalar_ok(rest[m].1) by {
                assert(rest[m] == entries[m + 1]);
            }
            assert forall|m: int| 0 <= m < gr.len() implies blank(#[trigger] gr[m]) by {
                assert(gr[m] == gaps[m + 4]);
            }
            let kr = kinds_of(members_atoms(rest, gr));
            assert(tokens_of(t).subrange(p3 + 1, t.len() as int) =~= kr) by {
                assert forall|k: int| 0 <= k < t.len() - (p3 + 1) implies tokens_of(t).subrange(
                    p3 + 1,
                    t.len() as int,
                )[k] == kr[k] by {
                    assert(kk[p3 + 1 - i + k] == kr[k]);
                    assert(tokens_of(t)[p3 + 1 + k] == t[p3 + 1 + k].token);
                }
            }
            lemma_parse_members(t, p3 + 1, rest, gr, b3);
            assert(b3 + member_shapes(rest) =~= body + member_shapes(entries));
        }
    }
}

proof fn lemma_members_listing(entries: Seq<(Seq<char>, Scalar)>)
    ensures
        crate::interpreter::members(member_shapes(entries)) == listing(entries),
    decreases entries.len(),
{
    if entries.len() > 0 {
        let b = member_shapes(entries);
        let rest = entries.drop_first();
        lemma_members_listing(rest);
        assert(b.subrange(3, b.len() as int) =~= member_shapes(rest));
        assert(rendered(scalar_shape(entries[0].1)) == type_word(entries[0].1));
        assert(b[0] == Shape::Str(entries[0].0));
        assert(b[2] == scalar_shape(entries[0].1));
    } else {
        assert(member_shapes(entries).len() == 0);
    }
}

/// Scanning, parsing and rendering a well-formed object whose values are literals, with any
/// spaces and newlines around its keys, colons, values and commas, gives one object node and no
/// error; its signature names every key of the source exactly once, in source order, each with
/// the type of its value: `{{ k1 : t1; k2 : t2; }}`.
pub proof fn lemma_object_keys_signature(entries: Seq<(Seq<char>, Scalar)>, gaps: Seq<Seq<Atom>>)
    requires
        entries_ok(entries),
        gaps_ok(gaps, 2 * entries.len()),
    ensures
        ({
            let (tokens, lexical) = scanned(object_source(entries, gaps));
            let (nodes, structural) = parsed(tokens);
            &&& lexical.len() == 0
            &&& structural.len() == 0
            &&& nodes == seq![Shape::Object(member_shapes(entries))]
            &&& rendered(nodes[0]) == "{{ "@ + listing(entries) + "}}"@
        }),
{
    let atoms = object_atoms(entries, gaps);
    let s = object_source(entries, gaps);
    lemma_members_atoms_ok(entries, gaps);
    lemma_punct_ok('{', members_atoms(entries, gaps));
    assert(s.subrange(0, s.len() as int) =~= s);
    lemma_scan_atoms(s, 0, atoms);
    let tokens = scanned(s).0;
    assert(tokens_of(tokens).len() == tokens.len());
    assert(kinds_of(atoms).len() >= 1);
    assert(tokens_of(tokens).subrange(1, tokens.len() as int) =~= kinds_of(members_atoms(entries, gaps)));
    assert(tokens[0].token == tokens_of(tokens)[0]);
    lemma_parse_members(tokens, 1, entries, gaps, seq![]);
    assert(seq![] + member_shapes(entries) =~= member_shapes(entries));
    assert(nodes_from(tokens, tokens.len() as int) == (Seq::<Shape>::empty(), Seq::<crate::ast::JSONError>::empty()));
    assert(parsed(tokens).0 =~= seq![Shape::Object(member_shapes(entries))]);
    assert(parsed(tokens).1 =~= Seq::<crate::ast::JSONError>::empty());
    lemma_members_listing(entries);
}

/// A string whose opening quote at `i` meets a newline, or the end of the text, before any
/// closing quote gives one `MissingStringTerminator`, at the position where it stops, and no
/// token; scanning goes on from there, so the tokens after it are those of the rest of the text.
pub proof fn lemma_unterminated_string(s: Seq<char>, i: int)
    requires
        0 <= i < s.len(),
        s[i] == '"',
        run_end(s, i + 1, CharClass::StringBody) == s.len() || s[run_end(
            s,
            i + 1,
            CharClass::StringBody,
        )] == '\n',
    ensures
        ({
            let j = run_end(s, i + 1, CharClass::StringBody);
            let e = ScannerError::MissingStringTerminator(position_at(s, j));
            &&& raw_scan(s, i) == seq![Err::<TokenRecord, ScannerError>(e)] + raw_scan(s, j)
            &&& sorted_out(raw_scan(s, i)) == (
                sorted_out(raw_scan(s, j)).0,
                seq![e] + sorted_out(raw_scan(s, j)).1,
            )
        }),
{
    let j = run_end(s, i + 1, CharClass::StringBody);
    crate::scanner::lemma_run_end_bounds(s, i + 1, CharClass::StringBody);
    crate::scanner::lemma_step_advances(s, i);
    assert(step(s, i).1 == j);
    lemma_sorted_out_cons(step(s, i).0, raw_scan(s, j));
}

} // verus!
