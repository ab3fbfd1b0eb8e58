//! The DIMACS clique format: `c` comment lines, one `p edge N M` line, and
//! `e U V` lines with 1-based vertex ids.
use crate::graph::Graph;
use vstd::prelude::*;

verus! {

/// `std::io::Error`, opaque: carried in `GraphErr::IoError`.
#[verifier::external_type_specification]
#[verifier::external_body]
pub struct ExIoError(std::io::Error);

/// Why a DIMACS input could not be read.
pub enum GraphErr {
    /// The text does not follow the format.
    ParseError(String),
    /// Reading the input failed.
    IoError(std::io::Error),
}

impl From<&str> for GraphErr {
    fn from(s: &str) -> (r: GraphErr)
        ensures
            r matches GraphErr::ParseError(m) && m@ == s@,
    {
        GraphErr::ParseError(s.to_owned())
    }
}

impl vstd::std_specs::convert::FromSpecImpl<&str> for GraphErr {
    open spec fn obeys_from_spec() -> bool {
        false
    }

    open spec fn from_spec(v: &str) -> GraphErr {
        GraphErr::ParseError(arbitrary())
    }
}

/// ASCII whitespace: space, tab, line feed, form feed, carriage return.
pub open spec fn is_space(b: u8) -> bool {
    b == 32 || b == 9 || b == 10 || b == 12 || b == 13
}

pub open spec fn is_digit(b: u8) -> bool {
    48 <= b <= 57
}

pub open spec fn flush(cur: Seq<u8>) -> Seq<Seq<u8>> {
    if cur.len() > 0 {
        seq![cur]
    } else {
        seq![]
    }
}

/// The whitespace-separated tokens of `line` from `i` on, where `cur` is the
/// part of a token read before `i`.
pub open spec fn tokens_from(line: Seq<u8>, i: int, cur: Seq<u8>) -> Seq<Seq<u8>>
    decreases line.len() - i,
{
    if i >= line.len() {
        flush(cur)
    } else if is_space(line[i]) {
        flush(cur) + tokens_from(line, i + 1, seq![])
    } else {
        tokens_from(line, i + 1, cur.push(line[i]))
    }
}

pub open spec fn tokens(line: Seq<u8>) -> Seq<Seq<u8>> {
    tokens_from(line, 0, seq![])
}

/// The texts of the spans `(start, end)` of `line`.
pub open spec fn spans_text(line: Seq<u8>, spans: Seq<(usize, usize)>) -> Seq<Seq<u8>> {
    spans.map_values(|p: (usize, usize)| line.subrange(p.0 as int, p.1 as int))
}

/// A nonempty run of decimal digits.
pub open spec fn digits_ok(t: Seq<u8>) -> bool {
    t.len() > 0 && forall|k: int| 0 <= k < t.len() ==> is_digit(#[trigger] t[k])
}

/// The value of a run of decimal digits.
pub open spec fn decimal(t: Seq<u8>) -> nat
    decreases t.len(),
{
    if t.len() == 0 {
        0
    } else {
        decimal(t.drop_last()) * 10 + (t.last() - 48) as nat
    }
}

/// The number that the token `t` writes, where it is one no larger than
/// `limit`.
pub open spec fn number(t: Seq<u8>, limit: nat) -> Option<nat> {
    if digits_ok(t) && decimal(t) <= limit {
        Some(decimal(t))
    } else {
        None
    }
}

/// What one line of the input says.
pub enum Line {
    /// A comment or a line of another kind.
    Skip,
    /// `p edge N M`: the number of vertices.
    Problem(usize),
    /// `e U V`: an edge between two 1-based ids.
    Edge(usize, usize),
    /// A line that breaks the format.
    Bad,
}

pub open spec fn line_kind(line: Seq<u8>) -> Line {
    let t = tokens(line);
    if line.len() > 0 && line[0] == 101 {
        if t.len() == 3 && number(t[1], u32::MAX as nat) is Some && number(t[2], u32::MAX as nat) is Some {
            Line::Edge(decimal(t[1]) as usize, decimal(t[2]) as usize)
        } else {
            Line::Bad
        }
    } else if line.len() > 0 && line[0] == 112 {
        if t.len() >= 3 && number(t[2], usize::MAX as nat) is Some {
            Line::Problem(decimal(t[2]) as usize)
        } else {
            Line::Bad
        }
    } else {
        Line::Skip
    }
}

/// The state after one more line: the vertex count, once declared, and the
/// 0-based edges so far; `None` where the line is an error. A `p` line may
/// come once, before any `e` line, whose ids must lie in `1..=N`.
pub open spec fn apply_line(kind: Line, n: Option<nat>, es: Set<(int, int)>) -> Option<(Option<nat>, Set<(int, int)>)> {
    match kind {
        Line::Skip => Some((n, es)),
        Line::Bad => None,
        Line::Problem(m) => if n is Some {
            None
        } else {
            Some((Some(m as nat), es))
        },
        Line::Edge(u, v) => match n {
            None => None,
            Some(m) => if 1 <= u <= m && 1 <= v <= m {
                Some((n, es.insert((u - 1, v - 1))))
            } else {
                None
            },
        },
    }
}

/// The outcome of reading `s` on from byte `i`, where the current line began
/// at `start`.
pub open spec fn dimacs_from(s: Seq<u8>, i: int, start: int, n: Option<nat>, es: Set<(int, int)>) -> Option<(nat, Set<(int, int)>)>
    decreases s.len() - i,
{
    if i >= s.len() {
        match apply_line(line_kind(s.subrange(start, s.len() as int)), n, es) {
            None => None,
            Some((n2, es2)) => match n2 {
                None => None,
                Some(m) => Some((m, es2)),
            },
        }
    } else if s[i] == 10 {
        match apply_line(line_kind(s.subrange(start, i)), n, es) {
            None => None,
            Some((n2, es2)) => dimacs_from(s, i + 1, i + 1, n2, es2),
        }
    } else {
        dimacs_from(s, i + 1, start, n, es)
    }
}

/// The graph that a DIMACS text describes: its vertex count and its 0-based
/// edges, or `None` where the text breaks the format or has no `p` line.
pub open spec fn dimacs_model(s: Seq<u8>) -> Option<(nat, Set<(int, int)>)> {
    dimacs_from(s, 0, 0, None, Set::empty())
}

/// The spans of the tokens of `line`.
fn token_spans(line: &Vec<u8>) -> (r: Vec<(usize, usize)>)
    ensures
        spans_text(line@, r@) == tokens(line@),
        forall|k: int| 0 <= k < r@.len() ==> (#[trigger] r@[k]).0 <= r@[k].1 <= line@.len(),
{
    let mut out: Vec<(usize, usize)> = Vec::new();
    let mut i: usize = 0;
    let mut start: usize = 0;
    let mut in_tok = false;
    while i < line.len()
        invariant
            i <= line@.len(),
            start <= i,
            in_tok ==> start < i,
            forall|k: int| 0 <= k < out@.len() ==> (#[trigger] out@[k]).0 <= out@[k].1 <= line@.len(),
            tokens(line@) == spans_text(line@, out@) + tokens_from(line@, i as int, if in_tok { line@.subrange(start as int, i as int) } else { seq![] }),
        decreases line@.len() - i,
    {
        let ghost cur = if in_tok { line@.subrange(start as int, i as int) } else { seq![] };
        let ghost before = out@;
        let b = line[i];
        if b == 32 || b == 9 || b == 10 || b == 12 || b == 13 {
            if in_tok {
                out.push((start, i));
                in_tok = false;
            }
            proof {
                assert(spans_text(line@, out@) =~= spans_text(line@, before) + flush(cur));
                assert(spans_text(line@, before) + flush(cur) + tokens_from(line@, i + 1, seq![]) =~= spans_text(line@, before) + (flush(cur) + tokens_from(line@, i + 1, seq![])));
            }
        } else {
            if !in_tok {
                in_tok = true;
                start = i;
            }
            proof {
                assert(cur.push(b) =~= line@.subrange(start as int, i + 1));
            }
        }
        i = i + 1;
    }
    if in_tok {
        let ghost before = out@;
        out.push((start, line.len()));
        proof {
            assert(spans_text(line@, out@) =~= spans_text(line@, before) + flush(line@.subrange(start as int, i as int)));
        }
    } else {
        proof {
            assert(spans_text(line@, out@) + Seq::<Seq<u8>>::empty() =~= spans_text(line@, out@));
        }
    }
    out
}

/// The value of the digits `line[s..e]`, where it is a nonempty run of
/// digits no larger than `limit`.
fn parse_number(line: &Vec<u8>, s: usize, e: usize, limit: u64) -> (r: Option<u64>)
    requires
        s <= e <= line@.len(),
        limit >= 9,
    ensures
        r == (match number(line@.subrange(s as int, e as int), limit as nat) {
            Some(x) => Some(x as u64),
            None => None::<u64>,
        }),
{
    let ghost t = line@.subrange(s as int, e as int);
    if s == e {
        return None;
    }
    let mut acc: u64 = 0;
    let mut over = false;
    let mut k: usize = s;
    while k < e
        invariant
            s <= k <= e <= line@.len(),
            t == line@.subrange(s as int, e as int),
            limit >= 9,
            forall|j: int| s <= j < k ==> is_digit(#[trigger] line@[j]),
            !over ==> acc == decimal(line@.subrange(s as int, k as int)) && acc <= limit,
            over ==> decimal(line@.subrange(s as int, k as int)) > limit,
        decreases e - k,
    {
        let b = line[k];
        if b < 48 || b > 57 {
            proof {
                assert(t[k - s] == b);
                assert(!digits_ok(t));
            }
            return None;
        }
        let ghost prev = line@.subrange(s as int, k as int);
        let ghost next = line@.subrange(s as int, k + 1);
        proof {
            assert(next.drop_last() =~= prev);
            assert(next.last() == b);
        }
        if !over {
            let d = (b - 48) as u64;
            if acc <= (limit - d) / 10 {
                proof {
                    assert(acc * 10 + d <= limit) by (nonlinear_arith)
                        requires acc <= (limit - d) / 10, d <= 9, limit >= 9;
                }
                acc = acc * 10 + d;
            } else {
                proof {
                    assert(acc * 10 + d > limit) by (nonlinear_arith)
                        requires acc > (limit - d) / 10, d <= 9, limit >= 9;
                }
                over = true;
            }
        } else {
            proof {
                assert(decimal(prev) * 10 >= decimal(prev)) by (nonlinear_arith);
            }
        }
        k = k + 1;
    }
    proof {
        assert(line@.subrange(s as int, k as int) =~= t);
        assert forall|j: int| 0 <= j < t.len() implies is_digit(#[trigger] t[j]) by {
            assert(t[j] == line@[s + j]);
        }
    }
    if over {
        None
    } else {
        Some(acc)
    }
}

/// What the line says.
fn classify(line: &Vec<u8>) -> (r: Line)
    ensures
        r == line_kind(line@),
{
    if line.len() == 0 {
        return Line::Skip;
    }
    let spans = token_spans(line);
    let ghost t = tokens(line@);
    proof {
        assert(t.len() == spans@.len());
        assert forall|k: int| 0 <= k < t.len() implies t[k] == line@.subrange(spans@[k].0 as int, spans@[k].1 as int) by {
            assert(spans_text(line@, spans@)[k] == line@.subrange(spans@[k].0 as int, spans@[k].1 as int));
        }
    }
    if line[0] == 101 {
        if spans.len() != 3 {
            return Line::Bad;
        }
        let a = parse_number(line, spans[1].0, spans[1].1, 4294967295);
        let b = parse_number(line, spans[2].0, spans[2].1, 4294967295);
        match (a, b) {
            (Some(x), Some(y)) => Line::Edge(x as usize, y as usize),
            _ => Line::Bad,
        }
    } else if line[0] == 112 {
        if spans.len() < 3 {
            return Line::Bad;
        }
        match parse_number(line, spans[2].0, spans[2].1, usize::MAX as u64) {
            Some(x) => Line::Problem(x as usize),
            None => Line::Bad,
        }
    } else {
        Line::Skip
    }
}

/// `g` and `declared` stand for the reading state `(n, es)`.
pub open spec fn holds(g: &Graph, declared: bool, n: Option<nat>, es: Set<(int, int)>) -> bool {
    &&& g.wf()
    &&& n == (if declared { Some(g.n()) } else { None::<nat> })
    &&& !declared ==> es == Set::<(int, int)>::empty()
    &&& forall|a: int, b: int| #[trigger] g.adjacent(a, b) <==> (a != b && (es.contains((a, b)) || es.contains((b, a))))
}

/// Applies the line `bytes[start..end]` to the state; `false` where the line
/// is an error.
fn take_line(bytes: &[u8], start: usize, end: usize, g: &mut Graph, declared: &mut bool, Ghost(es): Ghost<Set<(int, int)>>) -> (ok: bool)
    requires
        start <= end <= bytes@.len(),
        holds(old(g), *old(declared), if *old(declared) { Some(old(g).n()) } else { None::<nat> }, es),
    ensures
        match apply_line(line_kind(bytes@.subrange(start as int, end as int)), if *old(declared) { Some(old(g).n()) } else { None::<nat> }, es) {
            None => !ok,
            Some((n2, es2)) => ok && holds(final(g), *final(declared), n2, es2),
        },
{
    let mut line: Vec<u8> = Vec::new();
    let mut k: usize = start;
    while k < end
        invariant
            start <= k <= end <= bytes@.len(),
            line@ == bytes@.subrange(start as int, k as int),
        decreases end - k,
    {
        line.push(bytes[k]);
        k = k + 1;
        proof {
            assert(line@ =~= bytes@.subrange(start as int, k as int));
        }
    }
    match classify(&line) {
        Line::Skip => true,
        Line::Bad => false,
        Line::Problem(m) => {
            if *declared {
                false
            } else {
                *g = Graph::new(m);
                *declared = true;
                true
            }
        },
        Line::Edge(u, v) => {
            if !*declared || u < 1 || v < 1 || u > g.node_count() || v > g.node_count() {
                false
            } else {
                let ghost es2 = es.insert(((u - 1) as int, (v - 1) as int));
                g.add_edge(u - 1, v - 1);
                proof {
                    assert forall|a: int, b: int| #[trigger] g.adjacent(a, b) <==> (a != b && (es2.contains((a, b)) || es2.contains((b, a)))) by {}
                }
                true
            }
        },
    }
}

/// Reads a DIMACS text. On success the graph has the declared vertex count
/// and exactly the edges of the `e` lines, shifted to 0-based ids; self-loops
/// are dropped and repeated edges count once. A line that starts with `e`
/// but is not `e U V` with ids in `1..=N`, an `e` line before the `p` line, a
/// second `p` line, a `p` line without a vertex count, and a text with no
/// `p` line are parse errors.
pub fn parse_dimacs(bytes: &[u8]) -> (r: Result<Graph, GraphErr>)
    ensures
        match dimacs_model(bytes@) {
            Some((n, es)) => r matches Ok(g) && holds(&g, true, Some(n), es),
            None => r matches Err(GraphErr::ParseError(_)),
        },
{
    let mut g = Graph::new(0);
    let mut declared = false;
    let ghost mut es: Set<(int, int)> = Set::empty();
    let mut start: usize = 0;
    let mut i: usize = 0;
    while i < bytes.len()
        invariant
            start <= i <= bytes@.len(),
            holds(&g, declared, if declared { Some(g.n()) } else { None::<nat> }, es),
            dimacs_model(bytes@) == dimacs_from(bytes@, i as int, start as int, if declared { Some(g.n()) } else { None::<nat> }, es),
        decreases bytes@.len() - i,
    {
        if bytes[i] == 10 {
            let ghost n0 = if declared { Some(g.n()) } else { None::<nat> };
            let ok = take_line(bytes, start, i, &mut g, &mut declared, Ghost(es));
            if !ok {
                return Err(GraphErr::ParseError("invalid DIMACS line".to_owned()));
            }
            proof {
                let next = apply_line(line_kind(bytes@.subrange(start as int, i as int)), n0, es);
                let (_, es2) = next.unwrap();
                es = es2;
            }
            start = i + 1;
        }
        i = i + 1;
    }
    let ghost n0 = if declared { Some(g.n()) } else { None::<nat> };
    let ok = take_line(bytes, start, bytes.len(), &mut g, &mut declared, Ghost(es));
    if !ok {
        return Err(GraphErr::ParseError("invalid DIMACS line".to_owned()));
    }
    if !declared {
        return Err(GraphErr::ParseError("missing p line".to_owned()));
    }
    Ok(g)
}

} // verus!
