//! Results and lists of values are seen as they are.
use crate::answer::{Answer, CallToolResult, Failure, ToolFailure};
use crate::autoplace::{parts_of, picks_of, Part};
use crate::board::{places_of, At, BoardError};
use crate::components::{change, placement_texts, word_lists, Placement};
use crate::edits::{edits_of, SexpEdit};
use crate::fields::{requests_of, FieldRequest};
use crate::fplib::{pairs_of, paths_of};
use crate::instances::{infos_of, ComponentInfo};
use crate::ipc::{plain_result, IpcError};
use crate::nets::opt_number;
use crate::parser::{node_result, SexpError};
use crate::placing::outcome;
use crate::reading::{
    hits_of, numbered, own_text, pad_texts, pair_texts, summaries_of, trace_texts, FootprintSummary,
    Pad, Trace,
};
use crate::routing::{assignment_outcome, board_outcome, points_of, Assignment, Point};
use crate::scan::spans_of;
use crate::symlib::{dirs_of, opt_bytes, own_tree, SymbolDir};
use crate::text::{bytes_of, opt_int, opt_span};
use crate::tracks::heads_of;
use crate::tree::{opt_text, opt_tree, trees_of, SexpNode, Tree};
use crate::words::strings_of;
use vstd::prelude::*;
use vstd::string::*;

verus! {

/// Results are seen as they are.
pub proof fn law_results_are_seen_as_they_are(
    s: String,
    a: CallToolResult,
    f: ToolFailure,
    e: BoardError,
)
    ensures
        board_outcome(Ok::<String, CallToolResult>(s)) == Ok::<Seq<u8>, Answer>(bytes_of(s@)),
        board_outcome(Err::<String, CallToolResult>(a)) == Err::<Seq<u8>, Answer>(a@),
        change(Ok::<String, ToolFailure>(s)) == Ok::<Seq<u8>, Failure>(bytes_of(s@)),
        change(Err::<String, ToolFailure>(f)) == Err::<Seq<u8>, Failure>(f@),
        outcome(Ok::<String, BoardError>(s)) == Ok::<Seq<u8>, BoardError>(bytes_of(s@)),
        outcome(Err::<String, BoardError>(e)) == Err::<Seq<u8>, BoardError>(e),
        assignment_outcome(Ok::<Assignment, CallToolResult>(Assignment::AlreadyAssigned)) == Ok::<
            Option<Seq<u8>>,
            Answer,
        >(None),
        assignment_outcome(Ok::<Assignment, CallToolResult>(Assignment::Assigned(s))) == Ok::<
            Option<Seq<u8>>,
            Answer,
        >(Some(bytes_of(s@))),
        assignment_outcome(Err::<Assignment, CallToolResult>(a)) == Err::<
            Option<Seq<u8>>,
            Answer,
        >(a@),
{
}

/// What may be missing is seen as it is.
pub proof fn law_options_are_seen_as_they_are(
    s: String,
    t: &str,
    n: SexpNode,
    i: usize,
    j: usize,
    k: i32,
)
    ensures
        own_text(Some(s)) == Some(s@),
        own_text(None) is None,
        opt_text(Some(t)) == Some(t@),
        opt_text(None) is None,
        opt_bytes(Some(s)) == Some(bytes_of(s@)),
        opt_bytes(None) is None,
        own_tree(Some(n)) == Some(n@),
        own_tree(None) is None,
        opt_tree(Some(&n)) == Some(n@),
        opt_tree(None) is None,
        opt_int(Some(i)) == Some(i as int),
        opt_int(None) is None,
        opt_span(Some((i, j))) == Some((i as int, j as int)),
        opt_span(None) is None,
        opt_number(Some(k)) == Some(k as int),
        opt_number(None) is None,
        node_result(Ok::<(SexpNode, usize), SexpError>((n, i))) == Ok::<(Tree, int), SexpError>(
            (n@, i as int),
        ),
        node_result(Err::<(SexpNode, usize), SexpError>(SexpError::Empty)) == Err::<
            (Tree, int),
            SexpError,
        >(SexpError::Empty),
{
}

/// What a call came to is seen as it is.
pub proof fn law_calls_are_seen_as_they_are<T>(v: T, m: String)
    ensures
        plain_result(Ok::<T, IpcError>(v)) == Ok::<T, (bool, Seq<char>)>(v),
        plain_result(Err::<T, IpcError>(IpcError::Unavailable(m))) == Err::<T, (bool, Seq<char>)>(
            (true, m@),
        ),
        plain_result(Err::<T, IpcError>(IpcError::Failed(m))) == Err::<T, (bool, Seq<char>)>(
            (false, m@),
        ),
{
}

/// Lists of texts and numbers are seen item by item.
pub proof fn law_lists_are_seen_item_by_item(
    s: Seq<String>,
    t: Seq<&str>,
    p: Seq<(usize, usize)>,
    q: Seq<(String, String)>,
    n: Seq<(i32, String)>,
    h: Seq<(usize, String)>,
    c: Seq<(usize, Option<usize>)>,
    w: Seq<Vec<String>>,
    i: int,
)
    ensures
        strings_of(s).len() == s.len(),
        0 <= i < s.len() ==> strings_of(s)[i] == s[i]@,
        heads_of(t).len() == t.len(),
        0 <= i < t.len() ==> heads_of(t)[i] == t[i]@,
        spans_of(p).len() == p.len(),
        0 <= i < p.len() ==> spans_of(p)[i] == (p[i].0 as int, p[i].1 as int),
        pair_texts(q).len() == q.len(),
        0 <= i < q.len() ==> pair_texts(q)[i] == (q[i].0@, q[i].1@),
        pairs_of(q).len() == q.len(),
        0 <= i < q.len() ==> pairs_of(q)[i] == (q[i].0@, q[i].1@),
        numbered(n).len() == n.len(),
        0 <= i < n.len() ==> numbered(n)[i] == (n[i].0 as int, n[i].1@),
        hits_of(h).len() == h.len(),
        0 <= i < h.len() ==> hits_of(h)[i] == (h[i].0 as int, h[i].1@),
        picks_of(c).len() == c.len(),
        0 <= i < c.len() ==> picks_of(c)[i].0 == c[i].0 && picks_of(c)[i].1 == (match c[i].1 {
            Some(k) => Some(k as int),
            None => None,
        }),
        paths_of(w).len() == w.len(),
        0 <= i < w.len() ==> paths_of(w)[i] == strings_of(w[i]@),
        word_lists(w).len() == w.len(),
        0 <= i < w.len() ==> word_lists(w)[i] == strings_of(w[i]@),
{
}

/// Lists of other values are seen item by item.
pub proof fn law_values_are_seen_item_by_item(
    e: Seq<SexpEdit>,
    p: Seq<Point>,
    a: Seq<At>,
    f: Seq<FieldRequest>,
    m: Seq<Placement>,
    s: Seq<FootprintSummary>,
    d: Seq<Pad>,
    t: Seq<Trace>,
    c: Seq<ComponentInfo>,
    g: Seq<SymbolDir>,
    n: Seq<&SexpNode>,
    i: int,
)
    ensures
        edits_of(e).len() == e.len(),
        0 <= i < e.len() ==> edits_of(e)[i] == e[i]@,
        points_of(p).len() == p.len(),
        0 <= i < p.len() ==> points_of(p)[i] == p[i]@,
        places_of(a).len() == a.len(),
        0 <= i < a.len() ==> places_of(a)[i] == a[i]@,
        requests_of(f).len() == f.len(),
        0 <= i < f.len() ==> requests_of(f)[i] == f[i]@,
        placement_texts(m).len() == m.len(),
        0 <= i < m.len() ==> placement_texts(m)[i] == m[i]@,
        summaries_of(s).len() == s.len(),
        0 <= i < s.len() ==> summaries_of(s)[i] == s[i]@,
        pad_texts(d).len() == d.len(),
        0 <= i < d.len() ==> pad_texts(d)[i] == d[i]@,
        trace_texts(t).len() == t.len(),
        0 <= i < t.len() ==> trace_texts(t)[i] == t[i]@,
        infos_of(c).len() == c.len(),
        0 <= i < c.len() ==> infos_of(c)[i] == c[i]@,
        dirs_of(g).len() == g.len(),
        0 <= i < g.len() ==> dirs_of(g)[i] == g[i]@,
        trees_of(n).len() == n.len(),
        0 <= i < n.len() ==> trees_of(n)[i] == n[i]@,
{
}

/// Symbols whose fields are to be placed are seen as they are.
pub proof fn law_parts_are_seen_as_they_are(v: Seq<Part>, i: int)
    ensures
        parts_of(v).len() == v.len(),
        0 <= i < v.len() ==> {
            &&& parts_of(v)[i].reference == v[i].reference@
            &&& parts_of(v)[i].rotation == v[i].rotation
            &&& v[i].choices matches Some(c) ==> parts_of(v)[i].choices == Some(c@)
            &&& v[i].choices is None ==> parts_of(v)[i].choices is None
        },
{
}

} // verus!
