use vstd::prelude::*;

use crate::scanner::{
    lemma_position_bounds, lemma_run_end_bounds, lemma_step_advances, next_position, position_at,
    raw_scan, run_end, scanned, sorted_out, step, CharClass, ScannerError,
};
use crate::token::{Position, TokenRecord, TokenView};

verus! {

/// `p` moved down by `lines` lines.
pub open spec fn lowered(p: Position, lines: int) -> Position {
    Position { line: (p.line + lines) as usize, column: p.column }
}

pub open spec fn lowered_record(r: TokenRecord, lines: int) -> TokenRecord {
    TokenRecord { token: r.token, lexeme: r.lexeme, position: lowered(r.position, lines) }
}

pub open spec fn lowered_error(e: ScannerError, lines: int) -> ScannerError {
    match e {
        ScannerError::MissingStringTerminator(p) => ScannerError::MissingStringTerminator(
            lowered(p, lines),
        ),
        ScannerError::UnexpectedCharacter(p) => ScannerError::UnexpectedCharacter(
            lowered(p, lines),
        ),
        ScannerError::UnknownIdentifier(p) => ScannerError::UnknownIdentifier(lowered(p, lines)),
    }
}

pub open spec fn lowered_outcome(r: Result<TokenRecord, ScannerError>, lines: int) -> Result<
    TokenRecord,
    ScannerError,
> {
    match r {
        Ok(t) => Ok(lowered_record(t, lines)),
        Err(e) => Err(lowered_error(e, lines)),
    }
}

pub open spec fn lowered_outcomes(rs: Seq<Result<TokenRecord, ScannerError>>, lines: int) -> Seq<
    Result<TokenRecord, ScannerError>,
> {
    rs.map_values(|r: Result<TokenRecord, ScannerError>| lowered_outcome(r, lines))
}

/// `a` followed by a newline and `b`.
pub open spec fn joined_lines(a: Seq<char>, b: Seq<char>) -> Seq<char> {
    a + seq!['\n'] + b
}

proof fn lemma_prefix_positions(a: Seq<char>, b: Seq<char>, k: int)
    requires
        0 <= k <= a.len(),
    ensures
        position_at(joined_lines(a, b), k) == position_at(a, k),
    decreases k,
{
    if k > 0 {
        lemma_prefix_positions(a, b, k - 1);
        assert(joined_lines(a, b)[k - 1] == a[k - 1]);
    }
}

proof fn lemma_prefix_run_end(a: Seq<char>, b: Seq<char>, m: int, c: CharClass)
    requires
        0 <= m <= a.len(),
    ensures
        run_end(joined_lines(a, b), m, c) == run_end(a, m, c),
    decreases a.len() - m,
{
    let s = joined_lines(a, b);
    if m < a.len() {
        assert(s[m] == a[m]);
        if c.spec_accepts(a[m]) {
            lemma_prefix_run_end(a, b, m + 1, c);
        }
    } else {
        assert(s[m] == '\n');
    }
}

proof fn lemma_prefix_step(a: Seq<char>, b: Seq<char>, i: int)
    requires
        0 <= i < a.len(),
    ensures
        step(joined_lines(a, b), i) == step(a, i),
{
    let s = joined_lines(a, b);
    assert(s[i] == a[i]);
    lemma_prefix_positions(a, b, i);
    lemma_prefix_run_end(a, b, i + 1, CharClass::Digits);
    lemma_prefix_run_end(a, b, i + 1, CharClass::Letters);
    lemma_prefix_run_end(a, b, i + 1, CharClass::StringBody);
    lemma_run_end_bounds(a, i + 1, CharClass::Digits);
    lemma_run_end_bounds(a, i + 1, CharClass::Letters);
    lemma_run_end_bounds(a, i + 1, CharClass::StringBody);
    let jd = run_end(a, i + 1, CharClass::Digits);
    let jl = run_end(a, i + 1, CharClass::Letters);
    let js = run_end(a, i + 1, CharClass::StringBody);
    assert(s.subrange(i, i + 1) =~= a.subrange(i, i + 1));
    assert(s.subrange(i, jd) =~= a.subrange(i, jd));
    assert(s.subrange(i, jl) =~= a.subrange(i, jl));
    assert(s.subrange(i + 1, js) =~= a.subrange(i + 1, js));
    lemma_prefix_positions(a, b, js);
    if js < a.len() {
        assert(s[js] == a[js]);
        assert(s.subrange(i, js + 1) =~= a.subrange(i, js + 1));
    } else {
        assert(s[js] == '\n');
    }
}

proof fn lemma_prefix_raw_scan(a: Seq<char>, b: Seq<char>, i: int)
    requires
        0 <= i <= a.len(),
    ensures
        raw_scan(joined_lines(a, b), i) == raw_scan(a, i) + raw_scan(
            joined_lines(a, b),
            a.len() as int,
        ),
    decreases a.len() - i,
{
    let s = joined_lines(a, b);
    if i < a.len() {
        lemma_prefix_step(a, b, i);
        lemma_step_advances(a, i);
        let j = step(a, i).1;
        lemma_prefix_raw_scan(a, b, j);
        assert(raw_scan(s, i) == seq![step(a, i).0] + raw_scan(s, j));
        assert(raw_scan(a, i) == seq![step(a, i).0] + raw_scan(a, j));
        assert(raw_scan(s, i) =~= raw_scan(a, i) + raw_scan(s, a.len() as int));
    } else {
        assert(raw_scan(a, i) =~= Seq::<Result<TokenRecord, ScannerError>>::empty());
        assert(raw_scan(s, i) =~= raw_scan(a, i) + raw_scan(s, a.len() as int));
    }
}

proof fn lemma_suffix_positions(a: Seq<char>, b: Seq<char>, k: int)
    requires
        0 <= k <= b.len(),
        a.len() + 1 + b.len() < usize::MAX,
    ensures
        position_at(joined_lines(a, b), a.len() + 1 + k) == lowered(
            position_at(b, k),
            position_at(a, a.len() as int).line as int,
        ),
    decreases k,
{
    let s = joined_lines(a, b);
    let o = a.len() + 1;
    lemma_position_bounds(a, a.len() as int);
    if k == 0 {
        lemma_prefix_positions(a, b, a.len() as int);
        assert(s[a.len() as int] == '\n');
    } else {
        lemma_suffix_positions(a, b, k - 1);
        lemma_position_bounds(b, k - 1);
        assert(s[o + k - 1] == b[k - 1]);
    }
}

proof fn lemma_suffix_run_end(a: Seq<char>, b: Seq<char>, m: int, c: CharClass)
    requires
        0 <= m <= b.len(),
    ensures
        run_end(joined_lines(a, b), a.len() + 1 + m, c) == a.len() + 1 + run_end(b, m, c),
    decreases b.len() - m,
{
    let s = joined_lines(a, b);
    if m < b.len() {
        assert(s[a.len() + 1 + m] == b[m]);
        if c.spec_accepts(b[m]) {
            lemma_suffix_run_end(a, b, m + 1, c);
        }
    }
}

proof fn lemma_suffix_step(a: Seq<char>, b: Seq<char>, k: int)
    requires
        0 <= k < b.len(),
        a.len() + 1 + b.len() < usize::MAX,
    ensures
        step(joined_lines(a, b), a.len() + 1 + k) == (
            lowered_outcome(step(b, k).0, position_at(a, a.len() as int).line as int),
            a.len() + 1 + step(b, k).1,
        ),
{
    let s = joined_lines(a, b);
    let o = a.len() + 1;
    let i = o + k;
    assert(s[i] == b[k]);
    lemma_suffix_positions(a, b, k);
    lemma_suffix_run_end(a, b, k + 1, CharClass::Digits);
    lemma_suffix_run_end(a, b, k + 1, CharClass::Letters);
    lemma_suffix_run_end(a, b, k + 1, CharClass::StringBody);
    lemma_run_end_bounds(b, k + 1, CharClass::Digits);
    lemma_run_end_bounds(b, k + 1, CharClass::Letters);
    lemma_run_end_bounds(b, k + 1, CharClass::StringBody);
    let jd = run_end(b, k + 1, CharClass::Digits);
    let jl = run_end(b, k + 1, CharClass::Letters);
    let js = run_end(b, k + 1, CharClass::StringBody);
    assert(s.subrange(i, i + 1) =~= b.subrange(k, k + 1));
    assert(s.subrange(i, o + jd) =~= b.subrange(k, jd));
    assert(s.subrange(i, o + jl) =~= b.subrange(k, jl));
    assert(s.subrange(i + 1, o + js) =~= b.subrange(k + 1, js));
    lemma_suffix_positions(a, b, js);
    if js < b.len() {
        assert(s[o + js] == b[js]);
        assert(s.subrange(i, o + js + 1) =~= b.subrange(k, js + 1));
    }
}

proof fn lemma_suffix_raw_scan(a: Seq<char>, b: Seq<char>, k: int)
    requires
        0 <= k <= b.len(),
        a.len() + 1 + b.len() < usize::MAX,
    ensures
        raw_scan(joined_lines(a, b), a.len() + 1 + k) == lowered_outcomes(
            raw_scan(b, k),
            position_at(a, a.len() as int).line as int,
        ),
    decreases b.len() - k,
{
    let s = joined_lines(a, b);
    let lines = position_at(a, a.len() as int).line as int;
    if k < b.len() {
        lemma_suffix_step(a, b, k);
        lemma_step_advances(b, k);
        let j = step(b, k).1;
        lemma_suffix_raw_scan(a, b, j);
        assert(raw_scan(b, k) == seq![step(b, k).0] + raw_scan(b, j));
        assert(lowered_outcomes(raw_scan(b, k), lines) =~= seq![
            lowered_outcome(step(b, k).0, lines),
        ] + lowered_outcomes(raw_scan(b, j), lines));
    } else {
        assert(lowered_outcomes(raw_scan(b, k), lines) =~= Seq::<
            Result<TokenRecord, ScannerError>,
        >::empty());
    }
}

proof fn lemma_sorted_out_append(x: Seq<Result<TokenRecord, ScannerError>>, y: Seq<Result<TokenRecord, ScannerError>>)
    ensures
        sorted_out(x + y) == (sorted_out(x).0 + sorted_out(y).0, sorted_out(x).1 + sorted_out(y).1),
    decreases y.len(),
{
    if y.len() == 0 {
        assert(x + y =~= x);
        assert(sorted_out(x).0 + Seq::<TokenRecord>::empty() =~= sorted_out(x).0);
        assert(sorted_out(x).1 + Seq::<ScannerError>::empty() =~= sorted_out(x).1);
    } else {
        lemma_sorted_out_append(x, y.drop_last());
        assert((x + y).drop_last() =~= x + y.drop_last());
        assert((x + y).last() == y.last());
        let (xt, xe) = sorted_out(x);
        let (yt, ye) = sorted_out(y.drop_last());
        match y.last() {
            Ok(t) => {
                assert((xt + yt).push(t) =~= xt + yt.push(t));
            },
            Err(e) => {
                assert((xe + ye).push(e) =~= xe + ye.push(e));
            },
        }
    }
}

proof fn lemma_sorted_out_lowered(y: Seq<Result<TokenRecord, ScannerError>>, lines: int)
    ensures
        sorted_out(lowered_outcomes(y, lines)) == (
            sorted_out(y).0.map_values(|r: TokenRecord| lowered_record(r, lines)),
            sorted_out(y).1.map_values(|e: ScannerError| lowered_error(e, lines)),
        ),
    decreases y.len(),
{
    let ly = lowered_outcomes(y, lines);
    if y.len() == 0 {
        assert(sorted_out(y).0.map_values(|r: TokenRecord| lowered_record(r, lines)) =~= Seq::<
            TokenRecord,
        >::empty());
        assert(sorted_out(y).1.map_values(|e: ScannerError| lowered_error(e, lines)) =~= Seq::<
            ScannerError,
        >::empty());
    } else {
        let front = y.drop_last();
        lemma_sorted_out_lowered(front, lines);
        assert(ly.drop_last() =~= lowered_outcomes(front, lines));
        assert(ly.last() == lowered_outcome(y.last(), lines));
        let (ft, fe) = sorted_out(front);
        match y.last() {
            Ok(t) => {
                assert(ft.push(t).map_values(|r: TokenRecord| lowered_record(r, lines))
                    =~= ft.map_values(|r: TokenRecord| lowered_record(r, lines)).push(
                    lowered_record(t, lines),
                ));
            },
            Err(e) => {
                assert(fe.push(e).map_values(|x: ScannerError| lowered_error(x, lines))
                    =~= fe.map_values(|x: ScannerError| lowered_error(x, lines)).push(
                    lowered_error(e, lines),
                ));
            },
        }
    }
}

/// Scanning goes on line by line: the text `a`, a newline and the text `b` scan to the tokens
/// and errors of `a`, the newline's token, and the tokens and errors of `b` as if scanned alone,
/// moved down by the lines of `a`. An error in `a`, such as an unterminated string, leaves the
/// tokens of the later lines as they are.
pub proof fn lemma_scan_by_lines(a: Seq<char>, b: Seq<char>)
    requires
        a.len() + 1 + b.len() < usize::MAX,
    ensures
        ({
            let s = joined_lines(a, b);
            let lines = position_at(a, a.len() as int).line as int;
            let newline = TokenRecord {
                token: TokenView::NextLine,
                lexeme: seq!['\n'],
                position: position_at(a, a.len() as int),
            };
            &&& scanned(s).0 == scanned(a).0 + seq![newline] + scanned(b).0.map_values(
                |r: TokenRecord| lowered_record(r, lines),
            )
            &&& scanned(s).1 == scanned(a).1 + scanned(b).1.map_values(
                |e: ScannerError| lowered_error(e, lines),
            )
        }),
{
    let s = joined_lines(a, b);
    let n = a.len() as int;
    let lines = position_at(a, n).line as int;
    let newline = TokenRecord {
        token: TokenView::NextLine,
        lexeme: seq!['\n'],
        position: position_at(a, n),
    };
    lemma_prefix_raw_scan(a, b, 0);
    lemma_prefix_positions(a, b, n);
    assert(s[n] == '\n');
    assert(s.subrange(n, n + 1) =~= seq!['\n']);
    assert(step(s, n) == (Ok::<TokenRecord, ScannerError>(newline), n + 1));
    assert(raw_scan(s, n) == seq![Ok::<TokenRecord, ScannerError>(newline)] + raw_scan(s, n + 1));
    lemma_suffix_raw_scan(a, b, 0);
    let tail = lowered_outcomes(raw_scan(b, 0), lines);
    let nl = seq![Ok::<TokenRecord, ScannerError>(newline)];
    assert(raw_scan(s, 0) =~= raw_scan(a, 0) + nl + tail);
    lemma_sorted_out_append(raw_scan(a, 0) + nl, tail);
    lemma_sorted_out_append(raw_scan(a, 0), nl);
    assert(nl =~= Seq::<Result<TokenRecord, ScannerError>>::empty() + nl);
    lemma_sorted_out_append(Seq::<Result<TokenRecord, ScannerError>>::empty(), nl);
    assert(nl.drop_last() =~= Seq::<Result<TokenRecord, ScannerError>>::empty());
    assert(sorted_out(nl) == (seq![newline], Seq::<ScannerError>::empty())) by {
        assert(Seq::<TokenRecord>::empty().push(newline) =~= seq![newline]);
    }
    lemma_sorted_out_lowered(raw_scan(b, 0), lines);
    assert(sorted_out(raw_scan(a, 0)).1 + Seq::<ScannerError>::empty() =~= sorted_out(raw_scan(a, 0)).1);
}

} // verus!
