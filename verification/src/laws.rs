//! Structural laws of the flattened row sequence, stated over the row model
//! and proved by induction over the value tree: row count, open/close
//! symmetry, first/last child, sibling symmetry, depth and key presence.

use vstd::prelude::*;

use crate::flatten::{
    last_entry_pairs, last_entry_seq, lemma_pair_child_rows_len, lemma_rows_model_len,
    lemma_seq_child_rows_len, pair_child_rows, row_count, row_count_pairs, row_count_seq,
    rows_model, seq_child_rows,
};
use crate::rows::{RowModel, ValueModel};
use crate::tree::JsonValue;

verus! {

/// Total number of nodes of the value tree, all kinds counted alike.
pub open spec fn node_count(v: JsonValue) -> int
    decreases v, 0int,
{
    match v {
        JsonValue::Array(cs) => 1 + node_count_seq(cs@, 0),
        JsonValue::Object(ps) => 1 + node_count_pairs(ps@, 0),
        _ => 1int,
    }
}

pub open spec fn node_count_seq(cs: Seq<JsonValue>, i: int) -> int
    decreases cs, cs.len() - i,
{
    if i < 0 || i >= cs.len() {
        0int
    } else {
        node_count(cs[i]) + node_count_seq(cs, i + 1)
    }
}

pub open spec fn node_count_pairs(ps: Seq<(String, JsonValue)>, i: int) -> int
    decreases ps, ps.len() - i,
{
    if i < 0 || i >= ps.len() {
        0int
    } else {
        node_count(ps[i].1) + node_count_pairs(ps, i + 1)
    }
}

/// Number of non-empty containers among the nodes of the value tree.
pub open spec fn nonempty_container_count(v: JsonValue) -> int
    decreases v, 0int,
{
    match v {
        JsonValue::Array(cs) => if cs@.len() == 0 {
            0int
        } else {
            1 + nonempty_container_count_seq(cs@, 0)
        },
        JsonValue::Object(ps) => if ps@.len() == 0 {
            0int
        } else {
            1 + nonempty_container_count_pairs(ps@, 0)
        },
        _ => 0int,
    }
}

pub open spec fn nonempty_container_count_seq(cs: Seq<JsonValue>, i: int) -> int
    decreases cs, cs.len() - i,
{
    if i < 0 || i >= cs.len() {
        0int
    } else {
        nonempty_container_count(cs[i]) + nonempty_container_count_seq(cs, i + 1)
    }
}

pub open spec fn nonempty_container_count_pairs(ps: Seq<(String, JsonValue)>, i: int) -> int
    decreases ps, ps.len() - i,
{
    if i < 0 || i >= ps.len() {
        0int
    } else {
        nonempty_container_count(ps[i].1) + nonempty_container_count_pairs(ps, i + 1)
    }
}

/// Row count law: a value tree with `n` nodes, `c` of them non-empty
/// containers, flattens to exactly `n + c` rows — one row per node plus one
/// close row per non-empty container.
pub proof fn lemma_row_count_law(v: JsonValue)
    ensures
        rows_model(v, None, 0, 0).len() == node_count(v) + nonempty_container_count(v),
    decreases v, 0int,
{
    lemma_rows_model_len(v, None, 0, 0);
    lemma_counts_split(v);
}

proof fn lemma_counts_split(v: JsonValue)
    ensures
        row_count(v) == node_count(v) + nonempty_container_count(v),
        node_count(v) >= 1,
        nonempty_container_count(v) >= 0,
    decreases v, 0int,
{
    match v {
        JsonValue::Array(cs) => {
            lemma_counts_split_seq(cs@, 0);
        },
        JsonValue::Object(ps) => {
            lemma_counts_split_pairs(ps@, 0);
        },
        _ => {},
    }
}

proof fn lemma_counts_split_seq(cs: Seq<JsonValue>, i: int)
    ensures
        row_count_seq(cs, i) == node_count_seq(cs, i) + nonempty_container_count_seq(cs, i),
        node_count_seq(cs, i) >= 0,
        nonempty_container_count_seq(cs, i) >= 0,
    decreases cs, cs.len() - i,
{
    if 0 <= i < cs.len() {
        lemma_counts_split(cs[i]);
        lemma_counts_split_seq(cs, i + 1);
    }
}

proof fn lemma_counts_split_pairs(ps: Seq<(String, JsonValue)>, i: int)
    ensures
        row_count_pairs(ps, i) == node_count_pairs(ps, i) + nonempty_container_count_pairs(ps, i),
        node_count_pairs(ps, i) >= 0,
        nonempty_container_count_pairs(ps, i) >= 0,
    decreases ps, ps.len() - i,
{
    if 0 <= i < ps.len() {
        lemma_counts_split(ps[i].1);
        lemma_counts_split_pairs(ps, i + 1);
    }
}

/// Open/close symmetry: every open row's `close_index` points at a close
/// row of the same container type whose `open_index` points back at it.
pub proof fn lemma_open_close_symmetry(v: JsonValue, o: int)
    requires
        0 <= o < rows_model(v, None, 0, 0).len(),
        rows_model(v, None, 0, 0)[o].value is OpenContainer,
    ensures
        ({
            let rows = rows_model(v, None, 0, 0);
            let c = rows[o].value->OpenContainer_close_index;
            &&& o < c < rows.len()
            &&& rows[c].value is CloseContainer
            &&& rows[c].value->CloseContainer_open_index == o
            &&& rows[c].value->CloseContainer_container_type == rows[
                o
            ].value->OpenContainer_container_type
            &&& rows[c].parent == rows[o].parent
            &&& rows[c].depth == rows[o].depth
        }),
{
    lemma_seg(v, None, 0, 0);
    assert(boundary_ok(rows_model(v, None, 0, 0), 0, o));
}

/// Open/close symmetry, read from the close row: every close row's
/// `open_index` points at an open row whose `close_index` points back.
pub proof fn lemma_close_open_symmetry(v: JsonValue, c: int)
    requires
        0 <= c < rows_model(v, None, 0, 0).len(),
        rows_model(v, None, 0, 0)[c].value is CloseContainer,
    ensures
        ({
            let rows = rows_model(v, None, 0, 0);
            let o = rows[c].value->CloseContainer_open_index;
            &&& 0 <= o < c
            &&& rows[o].value is OpenContainer
            &&& rows[o].value->OpenContainer_close_index == c
        }),
{
    lemma_seg(v, None, 0, 0);
    assert(boundary_ok(rows_model(v, None, 0, 0), 0, c));
    let rows = rows_model(v, None, 0, 0);
    let o = rows[c].value->CloseContainer_open_index;
    assert(boundary_ok(rows_model(v, None, 0, 0), 0, o));
}

/// First/last child law: a non-empty container's children start right after
/// its open row, and its close row's `last_child` is the entry row of its
/// last direct child — a direct child of the container with no next sibling.
pub proof fn lemma_first_last_child(v: JsonValue, o: int)
    requires
        0 <= o < rows_model(v, None, 0, 0).len(),
        rows_model(v, None, 0, 0)[o].value is OpenContainer,
    ensures
        ({
            let rows = rows_model(v, None, 0, 0);
            let c = rows[o].value->OpenContainer_close_index;
            let lc = rows[c].value->CloseContainer_last_child;
            &&& rows[o].value->OpenContainer_first_child == o + 1
            &&& rows[o + 1].parent == Some(o)
            &&& rows[o + 1].prev_sibling is None
            &&& !(rows[o + 1].value is CloseContainer)
            &&& o < lc < c
            &&& rows[lc].parent == Some(o)
            &&& rows[lc].next_sibling is None
            &&& !(rows[lc].value is CloseContainer)
        }),
{
    lemma_seg(v, None, 0, 0);
    assert(boundary_ok(rows_model(v, None, 0, 0), 0, o));
}

/// Sibling symmetry: row `a` names `b` as its next sibling exactly when row
/// `b` names `a` as its previous sibling.
pub proof fn lemma_sibling_symmetry(v: JsonValue, a: int, b: int)
    requires
        0 <= a < rows_model(v, None, 0, 0).len(),
        0 <= b < rows_model(v, None, 0, 0).len(),
    ensures
        rows_model(v, None, 0, 0)[a].next_sibling == Some(b) <==> rows_model(v, None, 0, 0)[
            b
        ].prev_sibling == Some(a),
{
    lemma_seg(v, None, 0, 0);
    assert(sibling_ok(rows_model(v, None, 0, 0), 0, a));
    assert(sibling_ok(rows_model(v, None, 0, 0), 0, b));
}

/// Depth law: every row sitting directly in a container is one level deeper
/// than the container's open row, and its parent lies before it.
pub proof fn lemma_depth_law(v: JsonValue, k: int, p: int)
    requires
        0 <= k < rows_model(v, None, 0, 0).len(),
        rows_model(v, None, 0, 0)[k].parent == Some(p),
    ensures
        0 <= p < k,
        rows_model(v, None, 0, 0)[p].value is OpenContainer,
        rows_model(v, None, 0, 0)[k].depth == rows_model(v, None, 0, 0)[p].depth + 1,
{
    lemma_seg(v, None, 0, 0);
    assert(lineage_ok(rows_model(v, None, 0, 0), 0, None, 0, false, k));
}

/// The top-level value sits at depth 0 with no parent.
pub proof fn lemma_root_depth(v: JsonValue)
    ensures
        rows_model(v, None, 0, 0)[0].depth == 0,
        rows_model(v, None, 0, 0)[0].parent is None,
{
    lemma_seg(v, None, 0, 0);
}

/// Key presence law: a row carries a key exactly when it is the entry row of
/// a direct child of an object — never an array child, a close row, or the
/// top-level value.
pub proof fn lemma_key_presence(v: JsonValue, k: int)
    requires
        0 <= k < rows_model(v, None, 0, 0).len(),
    ensures
        ({
            let rows = rows_model(v, None, 0, 0);
            rows[k].key is Some <==> (rows[k].parent matches Some(p) && 0 <= p < k
                && (rows[p].value matches ValueModel::OpenContainer { container_type, .. }
                && container_type is Object) && !(rows[k].value is CloseContainer))
        }),
{
    lemma_seg(v, None, 0, 0);
    assert(lineage_ok(rows_model(v, None, 0, 0), 0, None, 0, false, k));
}

/// Open/close facts of the row at offset `j` of a segment of rows placed at
/// absolute index `s`: an open row points one past itself for its first
/// child and at a matching close row inside the segment; a close row points
/// back at its matching open row.
pub open spec fn boundary_ok(rows: Seq<RowModel>, s: int, j: int) -> bool {
    let r = rows[j];
    &&& (r.value matches ValueModel::OpenContainer { container_type, first_child, close_index }
        ==> {
        let c = close_index - s;
        &&& first_child == s + j + 1
        &&& j + 1 < c < rows.len()
        &&& (rows[c].value matches ValueModel::CloseContainer {
            container_type: ct2,
            last_child,
            open_index,
        } && ct2 == container_type && open_index == s + j && j + 1 <= last_child - s < c
            && rows[last_child - s].parent == Some(s + j) && rows[last_child - s].next_sibling
            is None && !(rows[last_child - s].value is CloseContainer))
        &&& rows[c].parent == r.parent
        &&& rows[c].depth == r.depth
        &&& rows[c].key is None
        &&& rows[j + 1].parent == Some(s + j)
        &&& rows[j + 1].prev_sibling is None
        &&& !(rows[j + 1].value is CloseContainer)
    })
    &&& (r.value matches ValueModel::CloseContainer { open_index, .. } ==> {
        let q = open_index - s;
        &&& 0 <= q < j
        &&& (rows[q].value matches ValueModel::OpenContainer { close_index, .. } && close_index
            == s + j)
    })
}

/// Parent, depth and key facts of the row at offset `j` of a segment placed
/// at `s` whose top rows carry parent `par` and depth `dep`: every other
/// row's parent is an open row earlier in the segment, one level up, and a
/// key is present exactly on entry rows sitting directly in an object.
pub open spec fn lineage_ok(
    rows: Seq<RowModel>,
    s: int,
    par: Option<int>,
    dep: int,
    keyed: bool,
    j: int,
) -> bool {
    let r = rows[j];
    &&& (r.parent == par ==> {
        &&& r.depth == dep
        &&& (r.value is CloseContainer ==> (r.key is None && r.prev_sibling is None
            && r.next_sibling is None))
        &&& (!(r.value is CloseContainer) ==> (r.key is Some <==> keyed))
    })
    &&& (r.parent != par ==> (r.parent matches Some(q) && s <= q < s + j && rows[q - s].value
        is OpenContainer && r.depth == rows[q - s].depth + 1 && (r.key is Some <==> ((rows[q
        - s].value->OpenContainer_container_type is Object) && !(r.value is CloseContainer)))))
}

/// Sibling facts of the row at offset `j` of a segment placed at `s`: the
/// doubly linked sibling chain is symmetric, stays inside the segment, joins
/// rows under one parent, and never touches a close row. Only the first row
/// of a child list may point at a previous sibling before the segment.
pub open spec fn sibling_ok(rows: Seq<RowModel>, s: int, j: int) -> bool {
    let r = rows[j];
    &&& (r.next_sibling matches Some(t) ==> (s + j < t < s + rows.len() && rows[t
        - s].prev_sibling == Some(s + j) && rows[t - s].parent == r.parent && !(r.value
        is CloseContainer) && !(rows[t - s].value is CloseContainer)))
    &&& (r.prev_sibling matches Some(t) ==> {
        &&& t >= s ==> (t < s + j && rows[t - s].next_sibling == Some(s + j) && rows[t
            - s].parent == r.parent && !(r.value is CloseContainer) && !(rows[t - s].value
            is CloseContainer))
        &&& t < s ==> j == 0
    })
}

/// All structural laws of a subtree's rows placed at `s`, whose top rows
/// carry parent `par` and depth `dep`: open/close symmetry with first/last
/// child, parent/depth/key lineage, and sibling symmetry, for every row of
/// the segment.
pub open spec fn segment_laws(rows: Seq<RowModel>, s: int, par: Option<int>, dep: int) -> bool {
    &&& forall|j: int| 0 <= j < rows.len() ==> #[trigger] boundary_ok(rows, s, j)
    &&& forall|j: int| 0 <= j < rows.len() ==> #[trigger] lineage_ok(rows, s, par, dep, false, j)
    &&& forall|j: int| 0 <= j < rows.len() ==> #[trigger] sibling_ok(rows, s, j)
}

/// All structural laws hold of the rows of a subtree placed at `s`, whose
/// top rows carry parent `par` (always an index before the segment) and
/// depth `dep`; the entry row is still unpatched.
#[verifier::rlimit(100)]
pub proof fn lemma_seg(v: JsonValue, par: Option<int>, dep: int, s: int)
    requires
        par matches Some(t) ==> t < s,
    ensures
        rows_model(v, par, dep, s).len() == row_count(v),
        forall|j: int|
            0 <= j < rows_model(v, par, dep, s).len() ==> #[trigger] boundary_ok(
                rows_model(v, par, dep, s),
                s,
                j,
            ),
        forall|j: int|
            0 <= j < rows_model(v, par, dep, s).len() ==> #[trigger] lineage_ok(
                rows_model(v, par, dep, s),
                s,
                par,
                dep,
                false,
                j,
            ),
        forall|j: int|
            0 <= j < rows_model(v, par, dep, s).len() ==> #[trigger] sibling_ok(
                rows_model(v, par, dep, s),
                s,
                j,
            ),
        forall|j: int| #![trigger rows_model(v, par, dep, s)[j]]
            0 < j < rows_model(v, par, dep, s).len() && rows_model(v, par, dep, s)[j].parent == par
                ==> (rows_model(v, par, dep, s)[j].value is CloseContainer && j == rows_model(
                v,
                par,
                dep,
                s,
            ).len() - 1),
        rows_model(v, par, dep, s)[0].parent == par,
        rows_model(v, par, dep, s)[0].depth == dep,
        rows_model(v, par, dep, s)[0].prev_sibling is None,
        rows_model(v, par, dep, s)[0].next_sibling is None,
        rows_model(v, par, dep, s)[0].key is None,
        !(rows_model(v, par, dep, s)[0].value is CloseContainer),
    decreases v, 0int,
{
    lemma_rows_model_len(v, par, dep, s);
    let rows = rows_model(v, par, dep, s);
    let n = rows.len();
    match v {
        JsonValue::Array(cs) => {
            if cs@.len() > 0 {
                lemma_chain_seq(cs@, 0, s, s + 1, dep + 1, None);
                lemma_seq_child_rows_len(cs@, 0, s, s + 1, dep + 1, None);
                let body = seq_child_rows(cs@, 0, s, s + 1, dep + 1, None);
                let m = body.len();
                assert(row_count_seq(cs@, cs@.len() as int) == 0);
                assert(row_count_seq(cs@, cs@.len() - 1) == row_count(cs@[cs@.len() - 1]));
                assert(n == m + 2);
                assert(forall|j: int| 1 <= j <= m ==> rows[j] == body[j - 1]);
                assert(boundary_ok(rows, s, 0)) by {
                    assert(body[0] == rows[1]);
                    let le = s + 1 + row_count_seq(cs@, 0) - row_count_seq(cs@, cs@.len() - 1);
                    assert(le == last_entry_seq(cs@, s + 1));
                    assert(rows[le - s] == body[le - s - 1]);
                }
                assert forall|j: int| 1 <= j <= m implies boundary_ok(rows, s, j) by {
                    assert(boundary_ok(body, s + 1, j - 1));
                }
                assert(boundary_ok(rows, s, n - 1));
                assert(lineage_ok(rows, s, par, dep, false, 0));
                assert(lineage_ok(rows, s, par, dep, false, n - 1));
                assert forall|j: int| 1 <= j <= m implies lineage_ok(
                    rows,
                    s,
                    par,
                    dep,
                    false,
                    j,
                ) by {
                    assert(lineage_ok(body, s + 1, Some(s), dep + 1, false, j - 1));
                    assert(lineage_ok(rows, s, par, dep, false, 0));
                }
                assert(sibling_ok(rows, s, 0));
                assert(sibling_ok(rows, s, n - 1));
                assert forall|j: int| 1 <= j <= m implies sibling_ok(rows, s, j) by {
                    assert(sibling_ok(body, s + 1, j - 1));
                }
                assert forall|j: int| 0 < j < n && rows[j].parent == par implies (rows[j].value
                    is CloseContainer && j == n - 1) by {
                    if j <= m {
                        assert(lineage_ok(body, s + 1, Some(s), dep + 1, false, j - 1));
                    }
                }
            }
        },
        JsonValue::Object(ps) => {
            if ps@.len() > 0 {
                lemma_chain_pairs(ps@, 0, s, s + 1, dep + 1, None);
                lemma_pair_child_rows_len(ps@, 0, s, s + 1, dep + 1, None);
                let body = pair_child_rows(ps@, 0, s, s + 1, dep + 1, None);
                let m = body.len();
                assert(row_count_pairs(ps@, ps@.len() as int) == 0);
                assert(row_count_pairs(ps@, ps@.len() - 1) == row_count(ps@[ps@.len() - 1].1));
                assert(n == m + 2);
                assert(forall|j: int| 1 <= j <= m ==> rows[j] == body[j - 1]);
                assert(boundary_ok(rows, s, 0)) by {
                    assert(body[0] == rows[1]);
                    let le = s + 1 + row_count_pairs(ps@, 0) - row_count_pairs(ps@, ps@.len() - 1);
                    assert(le == last_entry_pairs(ps@, s + 1));
                    assert(rows[le - s] == body[le - s - 1]);
                }
                assert forall|j: int| 1 <= j <= m implies boundary_ok(rows, s, j) by {
                    assert(boundary_ok(body, s + 1, j - 1));
                }
                assert(boundary_ok(rows, s, n - 1));
                assert(lineage_ok(rows, s, par, dep, false, 0));
                assert(lineage_ok(rows, s, par, dep, false, n - 1));
                assert forall|j: int| 1 <= j <= m implies lineage_ok(
                    rows,
                    s,
                    par,
                    dep,
                    false,
                    j,
                ) by {
                    assert(lineage_ok(body, s + 1, Some(s), dep + 1, true, j - 1));
                    assert(lineage_ok(rows, s, par, dep, false, 0));
                }
                assert(sibling_ok(rows, s, 0));
                assert(sibling_ok(rows, s, n - 1));
                assert forall|j: int| 1 <= j <= m implies sibling_ok(rows, s, j) by {
                    assert(sibling_ok(body, s + 1, j - 1));
                }
                assert forall|j: int| 0 < j < n && rows[j].parent == par implies (rows[j].value
                    is CloseContainer && j == n - 1) by {
                    if j <= m {
                        assert(lineage_ok(body, s + 1, Some(s), dep + 1, true, j - 1));
                    }
                }
            }
        },
        _ => {},
    }
}

/// All structural laws hold of the rows of the children `cs[i..]` laid out
/// from `st` under the open row at `o`, with the first child's previous
/// sibling `prev`; the entry row of each child is patched into the chain.
#[verifier::rlimit(100)]
pub proof fn lemma_chain_seq(
    cs: Seq<JsonValue>,
    i: int,
    o: int,
    st: int,
    dep: int,
    prev: Option<int>,
)
    requires
        0 <= i,
        o < st,
        prev matches Some(t) ==> t < st,
    ensures
        seq_child_rows(cs, i, o, st, dep, prev).len() == row_count_seq(cs, i),
        forall|j: int|
            0 <= j < seq_child_rows(cs, i, o, st, dep, prev).len() ==> #[trigger] boundary_ok(
                seq_child_rows(cs, i, o, st, dep, prev),
                st,
                j,
            ),
        forall|j: int|
            0 <= j < seq_child_rows(cs, i, o, st, dep, prev).len() ==> #[trigger] lineage_ok(
                seq_child_rows(cs, i, o, st, dep, prev),
                st,
                Some(o),
                dep,
                false,
                j,
            ),
        forall|j: int|
            0 <= j < seq_child_rows(cs, i, o, st, dep, prev).len() ==> #[trigger] sibling_ok(
                seq_child_rows(cs, i, o, st, dep, prev),
                st,
                j,
            ),
        i < cs.len() ==> ({
            let body = seq_child_rows(cs, i, o, st, dep, prev);
            &&& body[0].parent == Some(o)
            &&& body[0].depth == dep
            &&& body[0].prev_sibling == prev
            &&& body[0].next_sibling == (if i + 1 < cs.len() {
                Some(st + row_count(cs[i]))
            } else {
                None::<int>
            })
            &&& body[0].key is None
            &&& !(body[0].value is CloseContainer)
            &&& ({
                let le = st + row_count_seq(cs, i) - row_count_seq(cs, cs.len() - 1);
                &&& st <= le < st + body.len()
                &&& body[le - st].parent == Some(o)
                &&& body[le - st].next_sibling is None
                &&& !(body[le - st].value is CloseContainer)
            })
        }),
    decreases cs, cs.len() - i,
{
    lemma_seq_child_rows_len(cs, i, o, st, dep, prev);
    if i < cs.len() {
        let body = seq_child_rows(cs, i, o, st, dep, prev);
        let stride = row_count(cs[i]);
        let head = rows_model(cs[i], Some(o), dep, st);
        lemma_seg(cs[i], Some(o), dep, st);
        lemma_chain_seq(cs, i + 1, o, st + stride, dep, Some(st));
        let tail = seq_child_rows(cs, i + 1, o, st + stride, dep, Some(st));
        assert(row_count_seq(cs, i) == stride + row_count_seq(cs, i + 1));
        assert(body.len() == stride + tail.len());
        assert(forall|j: int| 1 <= j < stride ==> body[j] == head[j]);
        assert(forall|j: int| stride <= j < body.len() ==> body[j] == tail[j - stride]);
        assert(body[0].value == head[0].value && body[0].parent == head[0].parent && body[0].depth
            == head[0].depth);
        assert(boundary_ok(body, st, 0)) by {
            assert(boundary_ok(head, st, 0));
        }
        assert forall|j: int| 1 <= j < stride implies boundary_ok(body, st, j) by {
            assert(boundary_ok(head, st, j));
        }
        assert forall|j: int| stride <= j < body.len() implies boundary_ok(body, st, j) by {
            assert(boundary_ok(tail, st + stride, j - stride));
        }
        assert(lineage_ok(body, st, Some(o), dep, false, 0));
        assert forall|j: int| 1 <= j < stride implies lineage_ok(
            body,
            st,
            Some(o),
            dep,
            false,
            j,
        ) by {
            assert(lineage_ok(head, st, Some(o), dep, false, j));
        }
        assert forall|j: int| stride <= j < body.len() implies lineage_ok(
            body,
            st,
            Some(o),
            dep,
            false,
            j,
        ) by {
            assert(lineage_ok(tail, st + stride, Some(o), dep, false, j - stride));
        }
        assert(sibling_ok(body, st, 0)) by {
            if i + 1 < cs.len() {
                assert(tail[0].prev_sibling == Some(st));
                assert(tail[0].parent == Some(o));
                assert(!(tail[0].value is CloseContainer));
            }
        }
        assert forall|j: int| 1 <= j < stride implies sibling_ok(body, st, j) by {
            assert(sibling_ok(head, st, j));
        }
        assert forall|j: int| stride <= j < body.len() implies sibling_ok(body, st, j) by {
            assert(sibling_ok(tail, st + stride, j - stride));
            if j == stride {
                assert(body[0].next_sibling == Some(st + stride));
                assert(body[0].parent == Some(o));
            }
        }
        assert(row_count_seq(cs, cs.len() as int) == 0);
        if i == cs.len() - 1 {
            assert(row_count_seq(cs, cs.len() - 1) == stride);
        }
    }
}

/// All structural laws hold of the rows of the members `ps[i..]` laid out
/// from `st` under the open row at `o`: as for arrays, and every member's
/// entry row carries its key.
#[verifier::rlimit(100)]
pub proof fn lemma_chain_pairs(
    ps: Seq<(String, JsonValue)>,
    i: int,
    o: int,
    st: int,
    dep: int,
    prev: Option<int>,
)
    requires
        0 <= i,
        o < st,
        prev matches Some(t) ==> t < st,
    ensures
        pair_child_rows(ps, i, o, st, dep, prev).len() == row_count_pairs(ps, i),
        forall|j: int|
            0 <= j < pair_child_rows(ps, i, o, st, dep, prev).len() ==> #[trigger] boundary_ok(
                pair_child_rows(ps, i, o, st, dep, prev),
                st,
                j,
            ),
        forall|j: int|
            0 <= j < pair_child_rows(ps, i, o, st, dep, prev).len() ==> #[trigger] lineage_ok(
                pair_child_rows(ps, i, o, st, dep, prev),
                st,
                Some(o),
                dep,
                true,
                j,
            ),
        forall|j: int|
            0 <= j < pair_child_rows(ps, i, o, st, dep, prev).len() ==> #[trigger] sibling_ok(
                pair_child_rows(ps, i, o, st, dep, prev),
                st,
                j,
            ),
        i < ps.len() ==> ({
            let body = pair_child_rows(ps, i, o, st, dep, prev);
            &&& body[0].parent == Some(o)
            &&& body[0].depth == dep
            &&& body[0].prev_sibling == prev
            &&& body[0].next_sibling == (if i + 1 < ps.len() {
                Some(st + row_count(ps[i].1))
            } else {
                None::<int>
            })
            &&& body[0].key is Some
            &&& !(body[0].value is CloseContainer)
            &&& ({
                let le = st + row_count_pairs(ps, i) - row_count_pairs(ps, ps.len() - 1);
                &&& st <= le < st + body.len()
                &&& body[le - st].parent == Some(o)
                &&& body[le - st].next_sibling is None
                &&& !(body[le - st].value is CloseContainer)
            })
        }),
    decreases ps, ps.len() - i,
{
    lemma_pair_child_rows_len(ps, i, o, st, dep, prev);
    if i < ps.len() {
        let body = pair_child_rows(ps, i, o, st, dep, prev);
        let stride = row_count(ps[i].1);
        let head = rows_model(ps[i].1, Some(o), dep, st);
        lemma_seg(ps[i].1, Some(o), dep, st);
        lemma_chain_pairs(ps, i + 1, o, st + stride, dep, Some(st));
        let tail = pair_child_rows(ps, i + 1, o, st + stride, dep, Some(st));
        assert(row_count_pairs(ps, i) == stride + row_count_pairs(ps, i + 1));
        assert(body.len() == stride + tail.len());
        assert(forall|j: int| 1 <= j < stride ==> body[j] == head[j]);
        assert(forall|j: int| stride <= j < body.len() ==> body[j] == tail[j - stride]);
        assert(body[0].value == head[0].value && body[0].parent == head[0].parent && body[0].depth
            == head[0].depth);
        assert(boundary_ok(body, st, 0)) by {
            assert(boundary_ok(head, st, 0));
        }
        assert forall|j: int| 1 <= j < stride implies boundary_ok(body, st, j) by {
            assert(boundary_ok(head, st, j));
        }
        assert forall|j: int| stride <= j < body.len() implies boundary_ok(body, st, j) by {
            assert(boundary_ok(tail, st + stride, j - stride));
        }
        assert(lineage_ok(body, st, Some(o), dep, true, 0)) by {
            lemma_rows_model_len(ps[i].1, Some(o), dep, st);
            assert(head.len() >= 1);
            assert(body[0].key == Some(ps[i].0@));
        }
        assert forall|j: int| 1 <= j < stride implies lineage_ok(
            body,
            st,
            Some(o),
            dep,
            true,
            j,
        ) by {
            assert(lineage_ok(head, st, Some(o), dep, false, j));
            if body[j].parent == Some(o) {
                assert(head[j].parent == Some(o));
                assert(head[j].value is CloseContainer);
            }
        }
        assert forall|j: int| stride <= j < body.len() implies lineage_ok(
            body,
            st,
            Some(o),
            dep,
            true,
            j,
        ) by {
            assert(lineage_ok(tail, st + stride, Some(o), dep, true, j - stride));
        }
        assert(sibling_ok(body, st, 0)) by {
            if i + 1 < ps.len() {
                assert(tail[0].prev_sibling == Some(st));
                assert(tail[0].parent == Some(o));
                assert(!(tail[0].value is CloseContainer));
            }
        }
        assert forall|j: int| 1 <= j < stride implies sibling_ok(body, st, j) by {
            assert(sibling_ok(head, st, j));
        }
        assert forall|j: int| stride <= j < body.len() implies sibling_ok(body, st, j) by {
            assert(sibling_ok(tail, st + stride, j - stride));
            if j == stride {
                assert(body[0].next_sibling == Some(st + stride));
                assert(body[0].parent == Some(o));
            }
        }
        assert(row_count_pairs(ps, ps.len() as int) == 0);
        if i == ps.len() - 1 {
            assert(row_count_pairs(ps, ps.len() - 1) == stride);
        }
    }
}

} // verus!
