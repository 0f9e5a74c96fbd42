//! The parser of the textual form itself.

use vstd::prelude::*;
use itertools::Itertools;
use crate::decimal::{number_of, parse_number};
use crate::graph::{
    dangling, explains, first_dangling, lemma_proper_cycle, proper, GraphError, PrecedenceGraph,
};
use crate::parser::GraphParser;
use crate::relation::{acyclic, valid_graph};
use crate::text::{
    chars_of, lemma_split_pieces, not_whitespace, pieces_view, split, split_at, strip_whitespace,
    text_of,
};

verus! {

/// Why a text is no precedence graph.
#[derive(Debug, Clone, PartialEq, Eq)]
pub enum StringParserError {
    /// The piece `str` of the text is no parenthesized pair.
    FailedToParse { str: String },
    /// The piece `node` of a pair is no natural number.
    NodeIsNotNumber { node: String },
    /// The pairs of the text `graph` form no valid graph, for the reason
    /// `cause`.
    GraphCanNotBeCreated { graph: String, cause: GraphError },
}

/// The parser of a graph given as text.
pub struct StringParser {}

/// The text as it is parsed: without its whitespace.
pub open spec fn content_of(source: Seq<char>) -> Seq<char> {
    source.filter(not_whitespace())
}

/// The pieces of the text that stand for one edge each: whitespace is
/// ignored, and every piece ends before a closing parenthesis.
pub open spec fn entities_of(source: Seq<char>) -> Seq<Seq<char>> {
    split(content_of(source), ')').drop_last()
}

/// What follows the last closing parenthesis. A text of pairs leaves nothing
/// there: a last pair that is not closed is no pair.
pub open spec fn tail_of(source: Seq<char>) -> Seq<char> {
    split(content_of(source), ')').last()
}

/// The two halves of a piece: it must open with a parenthesis and hold
/// exactly one comma after it.
pub open spec fn entity_parts(tup: Seq<char>) -> Option<(Seq<char>, Seq<char>)> {
    if tup.len() > 0 && tup[0] == '(' {
        let parts = split(tup.skip(1), ',');
        if parts.len() == 2 {
            Some((parts[0], parts[1]))
        } else {
            None
        }
    } else {
        None
    }
}

/// The edge that a piece stands for, if it stands for one.
pub open spec fn entity_edge(tup: Seq<char>) -> Option<(u128, u128)> {
    match entity_parts(tup) {
        Some(p) => match (number_of(p.0), number_of(p.1)) {
            (Some(a), Some(b)) => Some((a, b)),
            _ => None,
        },
        None => None,
    }
}

/// What the error says of the piece it was raised for: a piece that is no
/// pair is reported whole; of a pair, the first half that is no number.
pub open spec fn entity_error(tup: Seq<char>, e: StringParserError) -> bool {
    match e {
        StringParserError::FailedToParse { str } => entity_parts(tup) is None && str@ == tup,
        StringParserError::NodeIsNotNumber { node } => match entity_parts(tup) {
            Some(p) => if number_of(p.0) is None {
                node@ == p.0
            } else {
                number_of(p.1) is None && node@ == p.1
            },
            None => false,
        },
        StringParserError::GraphCanNotBeCreated { graph, cause } => false,
    }
}

/// The edges of the pieces, in their order.
pub open spec fn edges_of(entities: Seq<Seq<char>>) -> Seq<(u128, u128)> {
    Seq::new(entities.len(), |i: int| entity_edge(entities[i])->Some_0)
}

/// The ends of the edges, in their order: of each edge the target, then the
/// source.
pub open spec fn endpoints(edges: Seq<(u128, u128)>) -> Seq<u128>
    decreases edges.len(),
{
    if edges.len() == 0 {
        Seq::empty()
    } else {
        endpoints(edges.drop_last()).push(edges.last().1).push(edges.last().0)
    }
}

/// Every piece stands for an edge.
pub open spec fn all_edges(entities: Seq<Seq<char>>) -> bool {
    forall|i: int| 0 <= i < entities.len() ==> entity_edge(#[trigger] entities[i]) is Some
}

/// Piece `i` is the first that stands for no edge.
pub open spec fn first_bad(entities: Seq<Seq<char>>, i: int) -> bool {
    &&& 0 <= i < entities.len()
    &&& entity_edge(entities[i]) is None
    &&& forall|j: int| 0 <= j < i ==> entity_edge(#[trigger] entities[j]) is Some
}

/// What parsing `source` comes to. If some piece stands for no edge, the
/// first such piece is reported; if every piece stands for one and something
/// is left after the last closing parenthesis, that is. Otherwise the graph
/// on the edges of the pieces, its nodes the ends of the edges, is built or
/// refused.
pub open spec fn parses_to(source: Seq<char>, r: Result<PrecedenceGraph, StringParserError>) -> bool {
    let entities = entities_of(source);
    let tail = tail_of(source);
    let edges = edges_of(entities);
    let nodes = endpoints(edges).to_set();
    match r {
        Ok(g) => {
            &&& all_edges(entities)
            &&& tail.len() == 0
            &&& valid_graph(nodes, edges.to_set())
            &&& g.wf()
            &&& g.nodes() == nodes
            &&& g.edges() == edges.to_set()
        },
        Err(StringParserError::GraphCanNotBeCreated { graph, cause }) => {
            &&& all_edges(entities)
            &&& tail.len() == 0
            &&& !valid_graph(nodes, edges.to_set())
            &&& graph@ == source
            &&& explains(nodes, edges, cause)
        },
        Err(e) => {
            ||| exists|i: int| first_bad(entities, i) && entity_error(#[trigger] entities[i], e)
            ||| all_edges(entities) && tail.len() > 0 && (e matches StringParserError::FailedToParse {
                str,
            } && str@ == tail)
        },
    }
}

/// The ends of the edges hold both ends of every edge.
pub proof fn lemma_endpoints_hold(edges: Seq<(u128, u128)>, i: int)
    requires
        0 <= i < edges.len(),
    ensures
        endpoints(edges).contains(edges[i].0),
        endpoints(edges).contains(edges[i].1),
    decreases edges.len(),
{
    let all = endpoints(edges);
    let front = endpoints(edges.drop_last());
    if i == edges.len() - 1 {
        assert(all[all.len() - 1] == edges[i].0);
        assert(all[all.len() - 2] == edges[i].1);
    } else {
        lemma_endpoints_hold(edges.drop_last(), i);
        let a = choose|a: int| 0 <= a < front.len() && front[a] == edges[i].0;
        assert(all[a] == front[a]);
        let b = choose|b: int| 0 <= b < front.len() && front[b] == edges[i].1;
        assert(all[b] == front[b]);
    }
}

/// A text of pairs whose edges hold a cycle through two or more tasks is
/// refused for the cycle, whatever else is wrong with its edges.
pub proof fn law_cycle_in_text_is_reported(
    source: Seq<char>,
    r: Result<PrecedenceGraph, StringParserError>,
)
    requires
        parses_to(source, r),
        all_edges(entities_of(source)),
        tail_of(source).len() == 0,
        !acyclic(proper(edges_of(entities_of(source)).to_set())),
    ensures
        r matches Err(StringParserError::GraphCanNotBeCreated { graph, cause }) && cause
            is CycleDetected,
{
    let entities = entities_of(source);
    let edges = edges_of(entities);
    let nodes = endpoints(edges).to_set();
    lemma_proper_cycle(edges.to_set());
    match r {
        Ok(g) => {},
        Err(StringParserError::GraphCanNotBeCreated { graph, cause }) => {
            match cause {
                GraphError::DanglingEdge { from, to } => {
                    let i = choose|i: int|
                        first_dangling(nodes, edges, i) && #[trigger] edges[i] == (from, to);
                    lemma_endpoints_hold(edges, i);
                    assert(!dangling(nodes, edges[i]));
                },
                GraphError::SelfLoop { node } => {},
                GraphError::CycleDetected { node } => {},
            }
        },
        Err(e) => {
            if exists|i: int| first_bad(entities, i) && entity_error(#[trigger] entities[i], e) {
                let i = choose|i: int| first_bad(entities, i) && entity_error(#[trigger] entities[i], e);
                assert(entity_edge(entities[i]) is Some);
            }
        },
    }
}

/// Whitespace changes nothing: two texts that are the same but for their
/// whitespace are both read as graphs or both refused, and where they are
/// read, the graphs have the same nodes and the same edges.
pub proof fn law_whitespace_is_ignored(
    first: Seq<char>,
    second: Seq<char>,
    r1: Result<PrecedenceGraph, StringParserError>,
    r2: Result<PrecedenceGraph, StringParserError>,
)
    requires
        content_of(first) == content_of(second),
        parses_to(first, r1),
        parses_to(second, r2),
    ensures
        r1 is Ok <==> r2 is Ok,
        r1 is Ok ==> r1->Ok_0.nodes() == r2->Ok_0.nodes() && r1->Ok_0.edges() == r2->Ok_0.edges(),
{
    let entities = entities_of(first);
    assert(entities == entities_of(second));
    assert(tail_of(first) == tail_of(second));
    match r1 {
        Err(StringParserError::GraphCanNotBeCreated { graph, cause }) => {},
        Err(e) => {
            if exists|i: int| first_bad(entities, i) && entity_error(#[trigger] entities[i], e) {
                let i = choose|i: int| first_bad(entities, i) && entity_error(#[trigger] entities[i], e);
                assert(entity_edge(entities[i]) is None);
            }
        },
        Ok(g) => {},
    }
    match r2 {
        Err(StringParserError::GraphCanNotBeCreated { graph, cause }) => {},
        Err(e) => {
            if exists|i: int| first_bad(entities, i) && entity_error(#[trigger] entities[i], e) {
                let i = choose|i: int| first_bad(entities, i) && entity_error(#[trigger] entities[i], e);
                assert(entity_edge(entities[i]) is None);
            }
        },
        Ok(g) => {},
    }
}

/// Two pieces of text.
pub type Halves = (Vec<char>, Vec<char>);

/// The two pieces, if there are exactly two. This rests on
/// `Itertools::collect_tuple`, which hands back the items of an iterator as a
/// tuple if their number is that of the tuple, and `None` otherwise.
#[verifier::external_body]
fn exactly_two(parts: Vec<Vec<char>>) -> (r: Option<Halves>)
    ensures
        r is Some <==> parts@.len() == 2,
        r matches Some(p) ==> p.0@ == parts@[0]@ && p.1@ == parts@[1]@,
{
    parts.into_iter().collect_tuple()
}

/// The text after its first character.
fn tail(s: &Vec<char>) -> (r: Vec<char>)
    requires
        s@.len() > 0,
    ensures
        r@ == s@.skip(1),
{
    let mut r: Vec<char> = Vec::new();
    let mut i: usize = 1;
    while i < s.len()
        invariant
            1 <= i <= s@.len(),
            r@ == s@.skip(1).take(i - 1),
        decreases s@.len() - i,
    {
        r.push(s[i]);
        assert(s@.skip(1).take(i as int) =~= s@.skip(1).take(i - 1).push(s@[i as int]));
        i = i + 1;
    }
    assert(s@.skip(1).take(s@.len() - 1) =~= s@.skip(1));
    r
}

impl StringParser {
    /// The edge that one piece of the text stands for.
    pub fn parse_entity(tup: &Vec<char>) -> (r: Result<(u128, u128), StringParserError>)
        ensures
            match r {
                Ok(e) => entity_edge(tup@) == Some(e),
                Err(e) => entity_edge(tup@) is None && entity_error(tup@, e),
            },
    {
        if tup.len() == 0 || tup[0] != '(' {
            return Err(StringParserError::FailedToParse { str: text_of(tup) });
        }
        let rest = tail(tup);
        let parts = split_at(&rest, ',');
        proof {
            assert(pieces_view(parts@).len() == parts@.len());
            if parts@.len() == 2 {
                assert(pieces_view(parts@)[0] == parts@[0]@);
                assert(pieces_view(parts@)[1] == parts@[1]@);
            }
        }
        match exactly_two(parts) {
            None => Err(StringParserError::FailedToParse { str: text_of(tup) }),
            Some((first, second)) => {
                match parse_number(&first) {
                    None => Err(StringParserError::NodeIsNotNumber { node: text_of(&first) }),
                    Some(outcome) => match parse_number(&second) {
                        None => Err(StringParserError::NodeIsNotNumber { node: text_of(&second) }),
                        Some(income) => Ok((outcome, income)),
                    },
                }
            },
        }
    }

    /// Reads a graph from the characters of its textual form.
    pub fn parse_chars(source: &Vec<char>) -> (r: Result<PrecedenceGraph, StringParserError>)
        ensures
            parses_to(source@, r),
    {
        let content = strip_whitespace(source);
        let mut entities = split_at(&content, ')');
        let ghost pieces = entities_of(source@);
        let ghost all = pieces_view(entities@);
        proof {
            lemma_split_pieces(content@, ')');
        }
        let tail = match entities.pop() {
            Some(t) => t,
            None => Vec::new(),
        };
        proof {
            assert(pieces_view(entities@) =~= all.drop_last());
            assert(tail@ == tail_of(source@));
        }
        let mut nodes: Vec<u128> = Vec::new();
        let mut edges: Vec<(u128, u128)> = Vec::new();
        let mut i: usize = 0;
        proof {
            assert(edges_of(pieces).take(0) =~= Seq::<(u128, u128)>::empty());
        }
        while i < entities.len()
            invariant
                pieces == entities_of(source@),
                pieces_view(entities@) == pieces,
                i <= entities@.len(),
                forall|j: int| 0 <= j < i ==> entity_edge(#[trigger] pieces[j]) is Some,
                edges@ == edges_of(pieces).take(i as int),
                nodes@ == endpoints(edges@),
            decreases entities@.len() - i,
        {
            proof {
                assert(pieces[i as int] == entities@[i as int]@);
            }
            let edge = match StringParser::parse_entity(&entities[i]) {
                Ok(edge) => edge,
                Err(e) => {
                    proof {
                        assert(first_bad(pieces, i as int));
                    }
                    return Err(e);
                },
            };
            let ghost before = edges@;
            nodes.push(edge.1);
            nodes.push(edge.0);
            edges.push(edge);
            proof {
                assert(edges@ =~= edges_of(pieces).take(i as int + 1));
                assert(edges@.drop_last() =~= before);
            }
            i = i + 1;
        }
        proof {
            assert(edges_of(pieces).take(pieces.len() as int) =~= edges_of(pieces));
            assert(all_edges(pieces));
        }
        if tail.len() > 0 {
            return Err(StringParserError::FailedToParse { str: text_of(&tail) });
        }
        match PrecedenceGraph::new(nodes, edges) {
            Ok(g) => Ok(g),
            Err(cause) => Err(
                StringParserError::GraphCanNotBeCreated { graph: text_of(source), cause },
            ),
        }
    }
}

impl GraphParser for StringParser {
    type Source<'a> = &'a str;

    type Failure = StringParserError;

    open spec fn reads(source: &str, r: Result<PrecedenceGraph, StringParserError>) -> bool {
        parses_to(source@, r)
    }

    /// Reads a graph from its textual form.
    fn parse(source: &str) -> (r: Result<PrecedenceGraph, StringParserError>) {
        let chars = chars_of(source);
        StringParser::parse_chars(&chars)
    }
}

} // verus!
