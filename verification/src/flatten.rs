//! The flattening algorithm: a depth-first, pre-order traversal of the value
//! tree that emits rows in document order, threading a parent stack and
//! back-patching open/close cross-links and sibling chains as each subtree
//! completes. The spec functions here give the mathematical image of the
//! emitted row sequence; the executable functions are proved to produce
//! exactly that image.

use vstd::prelude::*;

use crate::laws::{lemma_seg, segment_laws};
use crate::rows::{ContainerType, FlatJson, OptionIndex, Row, RowModel, RowValue, ValueModel};
use crate::rows::rows_view;
use crate::tree::JsonValue;

verus! {

/// How many rows a node contributes: one per node, plus one extra close row
/// when the node is a non-empty container.
pub open spec fn row_count(v: JsonValue) -> int
    decreases v, 0int,
{
    match v {
        JsonValue::Array(cs) => if cs@.len() == 0 {
            1int
        } else {
            2 + row_count_seq(cs@, 0)
        },
        JsonValue::Object(ps) => if ps@.len() == 0 {
            1int
        } else {
            2 + row_count_pairs(ps@, 0)
        },
        _ => 1int,
    }
}

/// Rows contributed by the array elements `cs[i..]`.
pub open spec fn row_count_seq(cs: Seq<JsonValue>, i: int) -> int
    decreases cs, cs.len() - i,
{
    if i < 0 || i >= cs.len() {
        0int
    } else {
        row_count(cs[i]) + row_count_seq(cs, i + 1)
    }
}

/// Rows contributed by the object members `ps[i..]`.
pub open spec fn row_count_pairs(ps: Seq<(String, JsonValue)>, i: int) -> int
    decreases ps, ps.len() - i,
{
    if i < 0 || i >= ps.len() {
        0int
    } else {
        row_count(ps[i].1) + row_count_pairs(ps, i + 1)
    }
}

/// Entry index of the last element of a non-empty array whose children start
/// at row index `first`: the start of the block laid out for the last child.
pub open spec fn last_entry_seq(cs: Seq<JsonValue>, first: int) -> int {
    first + row_count_seq(cs, 0) - row_count(cs[cs.len() - 1])
}

/// Entry index of the last member of a non-empty object whose children start
/// at row index `first`.
pub open spec fn last_entry_pairs(ps: Seq<(String, JsonValue)>, first: int) -> int {
    first + row_count_pairs(ps, 0) - row_count(ps[ps.len() - 1].1)
}

/// A freshly appended row: `parent` and `depth` are fixed at creation time,
/// the sibling links, position and key start unset and are patched in by the
/// enclosing container once the child's entry index is known.
pub open spec fn blank_row(parent: Option<int>, depth: int, value: ValueModel) -> RowModel {
    RowModel {
        parent,
        prev_sibling: None,
        next_sibling: None,
        depth,
        index: 0,
        key: None,
        value,
    }
}

/// The rows that `v` contributes when emitted with the given structural
/// parent and depth, starting at absolute row index `start`. The entry row
/// (index 0 of the result) still carries unset sibling links, position and
/// key; the enclosing container patches those in.
pub open spec fn rows_model(v: JsonValue, parent: Option<int>, depth: int, start: int) -> Seq<
    RowModel,
>
    decreases v, 0int,
{
    match v {
        JsonValue::Null => seq![blank_row(parent, depth, ValueModel::Null)],
        JsonValue::Boolean(b) => seq![blank_row(parent, depth, ValueModel::Boolean(b))],
        JsonValue::Number(t) => seq![blank_row(parent, depth, ValueModel::Number(t@))],
        JsonValue::String(s) => seq![blank_row(parent, depth, ValueModel::String(s@))],
        JsonValue::Array(cs) => if cs@.len() == 0 {
            seq![blank_row(parent, depth, ValueModel::EmptyArray)]
        } else {
            seq![
                blank_row(
                    parent,
                    depth,
                    ValueModel::OpenContainer {
                        container_type: ContainerType::Array,
                        first_child: start + 1,
                        close_index: start + 1 + row_count_seq(cs@, 0),
                    },
                ),
            ] + seq_child_rows(cs@, 0, start, start + 1, depth + 1, None) + seq![
                blank_row(
                    parent,
                    depth,
                    ValueModel::CloseContainer {
                        container_type: ContainerType::Array,
                        last_child: last_entry_seq(cs@, start + 1),
                        open_index: start,
                    },
                ),
            ]
        },
        JsonValue::Object(ps) => if ps@.len() == 0 {
            seq![blank_row(parent, depth, ValueModel::EmptyObject)]
        } else {
            seq![
                blank_row(
                    parent,
                    depth,
                    ValueModel::OpenContainer {
                        container_type: ContainerType::Object,
                        first_child: start + 1,
                        close_index: start + 1 + row_count_pairs(ps@, 0),
                    },
                ),
            ] + pair_child_rows(ps@, 0, start, start + 1, depth + 1, None) + seq![
                blank_row(
                    parent,
                    depth,
                    ValueModel::CloseContainer {
                        container_type: ContainerType::Object,
                        last_child: last_entry_pairs(ps@, start + 1),
                        open_index: start,
                    },
                ),
            ]
        },
    }
}

/// The rows of the array elements `cs[i..]` laid out contiguously from row
/// index `start`, under the open row at `open`: each element's entry row is
/// patched with its position among siblings and its sibling links.
pub open spec fn seq_child_rows(
    cs: Seq<JsonValue>,
    i: int,
    open: int,
    start: int,
    depth: int,
    prev: Option<int>,
) -> Seq<RowModel>
    decreases cs, cs.len() - i,
{
    if i < 0 || i >= cs.len() {
        Seq::empty()
    } else {
        let head = rows_model(cs[i], Some(open), depth, start);
        let stride = row_count(cs[i]);
        let next = if i + 1 < cs.len() {
            Some(start + stride)
        } else {
            None
        };
        let entry = RowModel { prev_sibling: prev, next_sibling: next, index: i, ..head[0] };
        head.update(0, entry) + seq_child_rows(cs, i + 1, open, start + stride, depth, Some(start))
    }
}

/// The rows of the object members `ps[i..]` laid out contiguously from row
/// index `start`, under the open row at `open`: each member's entry row is
/// patched with its position, its member name and its sibling links.
pub open spec fn pair_child_rows(
    ps: Seq<(String, JsonValue)>,
    i: int,
    open: int,
    start: int,
    depth: int,
    prev: Option<int>,
) -> Seq<RowModel>
    decreases ps, ps.len() - i,
{
    if i < 0 || i >= ps.len() {
        Seq::empty()
    } else {
        let head = rows_model(ps[i].1, Some(open), depth, start);
        let stride = row_count(ps[i].1);
        let next = if i + 1 < ps.len() {
            Some(start + stride)
        } else {
            None
        };
        let entry = RowModel {
            prev_sibling: prev,
            next_sibling: next,
            index: i,
            key: Some(ps[i].0@),
            ..head[0]
        };
        head.update(0, entry) + pair_child_rows(ps, i + 1, open, start + stride, depth, Some(start))
    }
}

proof fn lemma_rows_view_push(s: Seq<Row>, r: Row)
    ensures
        rows_view(s.push(r)) == rows_view(s).push(r@),
{
    assert(rows_view(s.push(r)) =~= rows_view(s).push(r@));
}

proof fn lemma_rows_view_update(s: Seq<Row>, i: int, r: Row)
    requires
        0 <= i < s.len(),
    ensures
        rows_view(s.update(i, r)) == rows_view(s).update(i, r@),
{
    assert(rows_view(s.update(i, r)) =~= rows_view(s).update(i, r@));
}

/// Every node contributes at least one row, and the rows a subtree
/// contributes are exactly `row_count` many.
pub proof fn lemma_rows_model_len(v: JsonValue, parent: Option<int>, depth: int, start: int)
    ensures
        rows_model(v, parent, depth, start).len() == row_count(v),
        row_count(v) >= 1,
    decreases v, 0int,
{
    match v {
        JsonValue::Array(cs) => {
            if cs@.len() > 0 {
                lemma_seq_child_rows_len(cs@, 0, start, start + 1, depth + 1, None);
            }
        },
        JsonValue::Object(ps) => {
            if ps@.len() > 0 {
                lemma_pair_child_rows_len(ps@, 0, start, start + 1, depth + 1, None);
            }
        },
        _ => {},
    }
}

pub proof fn lemma_seq_child_rows_len(
    cs: Seq<JsonValue>,
    i: int,
    open: int,
    start: int,
    depth: int,
    prev: Option<int>,
)
    ensures
        seq_child_rows(cs, i, open, start, depth, prev).len() == row_count_seq(cs, i),
        row_count_seq(cs, i) >= 0,
        0 <= i < cs.len() ==> row_count_seq(cs, i) >= row_count(cs[i]) >= 1,
    decreases cs, cs.len() - i,
{
    if 0 <= i < cs.len() {
        lemma_rows_model_len(cs[i], Some(open), depth, start);
        lemma_seq_child_rows_len(cs, i + 1, open, start + row_count(cs[i]), depth, Some(start));
    }
}

pub proof fn lemma_pair_child_rows_len(
    ps: Seq<(String, JsonValue)>,
    i: int,
    open: int,
    start: int,
    depth: int,
    prev: Option<int>,
)
    ensures
        pair_child_rows(ps, i, open, start, depth, prev).len() == row_count_pairs(ps, i),
        row_count_pairs(ps, i) >= 0,
        0 <= i < ps.len() ==> row_count_pairs(ps, i) >= row_count(ps[i].1) >= 1,
    decreases ps, ps.len() - i,
{
    if 0 <= i < ps.len() {
        lemma_rows_model_len(ps[i].1, Some(open), depth, start);
        lemma_pair_child_rows_len(ps, i + 1, open, start + row_count(ps[i].1), depth, Some(start));
    }
}

/// Dropping a prefix of the children can only lower the contributed rows.
proof fn lemma_count_seq_mono(cs: Seq<JsonValue>, a: int, b: int)
    requires
        0 <= a <= b,
    ensures
        row_count_seq(cs, a) >= row_count_seq(cs, b) >= 0,
    decreases b - a,
{
    lemma_seq_child_rows_len(cs, b, 0, 0, 0, None);
    if a < b && a < cs.len() {
        lemma_rows_model_len(cs[a], None, 0, 0);
        lemma_count_seq_mono(cs, a + 1, b);
    } else if a < b {
        lemma_count_seq_mono(cs, a + 1, b);
    }
}

proof fn lemma_count_pairs_mono(ps: Seq<(String, JsonValue)>, a: int, b: int)
    requires
        0 <= a <= b,
    ensures
        row_count_pairs(ps, a) >= row_count_pairs(ps, b) >= 0,
    decreases b - a,
{
    lemma_pair_child_rows_len(ps, b, 0, 0, 0, None);
    if a < b && a < ps.len() {
        lemma_rows_model_len(ps[a].1, None, 0, 0);
        lemma_count_pairs_mono(ps, a + 1, b);
    } else if a < b {
        lemma_count_pairs_mono(ps, a + 1, b);
    }
}

/// Restricting the children to the first `k` removes exactly the rows of the
/// children from `k` on.
proof fn lemma_count_take_seq(cs: Seq<JsonValue>, i: int, k: int)
    requires
        0 <= i <= k <= cs.len(),
    ensures
        row_count_seq(cs.take(k), i) == row_count_seq(cs, i) - row_count_seq(cs, k),
    decreases k - i,
{
    if i < k {
        assert(cs.take(k)[i] == cs[i]);
        lemma_count_take_seq(cs, i + 1, k);
    }
}

/// Laying out the first `k + 1` children instead of the first `k` appends
/// the block of child `k`, patched as an entry row, and threads the sibling
/// chain: the until-then last entry row's `next_sibling` is patched to point
/// at the new child's entry row.
proof fn lemma_child_rows_snoc_seq(
    cs: Seq<JsonValue>,
    i: int,
    open: int,
    start: int,
    depth: int,
    prev: Option<int>,
    k: int,
)
    requires
        0 <= i <= k < cs.len(),
    ensures
        ({
            let before = seq_child_rows(cs.take(k), i, open, start, depth, prev);
            let after = seq_child_rows(cs.take(k + 1), i, open, start, depth, prev);
            let ek = start + row_count_seq(cs, i) - row_count_seq(cs, k);
            let head = rows_model(cs[k], Some(open), depth, ek);
            let prev_k = if k == i {
                prev
            } else {
                Some(start + row_count_seq(cs, i) - row_count_seq(cs, k - 1))
            };
            let patched = head.update(
                0,
                (RowModel { prev_sibling: prev_k, next_sibling: None, index: k, ..head[0] }),
            );
            after == (if k == i {
                patched
            } else {
                let j = row_count_seq(cs, i) - row_count_seq(cs, k - 1);
                before.update(j, (RowModel { next_sibling: Some(ek), ..before[j] })) + patched
            })
        }),
    decreases k - i,
{
    let before = seq_child_rows(cs.take(k), i, open, start, depth, prev);
    let after = seq_child_rows(cs.take(k + 1), i, open, start, depth, prev);
    let ek = start + row_count_seq(cs, i) - row_count_seq(cs, k);
    let head = rows_model(cs[k], Some(open), depth, ek);
    let prev_k = if k == i {
        prev
    } else {
        Some(start + row_count_seq(cs, i) - row_count_seq(cs, k - 1))
    };
    let patched = head.update(
        0,
        (RowModel { prev_sibling: prev_k, next_sibling: None, index: k, ..head[0] }),
    );
    lemma_rows_model_len(cs[k], Some(open), depth, ek);
    assert(cs.take(k + 1)[k] == cs[k]);
    if k == i {
        assert(row_count_seq(cs, i) == row_count_seq(cs, k));
        assert(seq_child_rows(cs.take(k + 1), i + 1, open, start + row_count(cs[k]), depth,
            Some(start)) =~= Seq::<RowModel>::empty());
        assert(after =~= patched);
    } else {
        assert(cs.take(k)[i] == cs[i]);
        assert(cs.take(k + 1)[i] == cs[i]);
        let stride = row_count(cs[i]);
        assert(row_count_seq(cs, i) == stride + row_count_seq(cs, i + 1));
        lemma_rows_model_len(cs[i], Some(open), depth, start);
        lemma_rows_model_len(cs[k - 1], Some(open), depth, 0);
        assert(row_count_seq(cs, k - 1) == row_count(cs[k - 1]) + row_count_seq(cs, k));
        lemma_count_seq_mono(cs, i + 1, k);
        if i + 1 <= k - 1 {
            lemma_count_seq_mono(cs, i + 1, k - 1);
        }
        lemma_child_rows_snoc_seq(cs, i + 1, open, start + stride, depth, Some(start), k);
        let before_tail = seq_child_rows(cs.take(k), i + 1, open, start + stride, depth,
            Some(start));
        let after_tail = seq_child_rows(cs.take(k + 1), i + 1, open, start + stride, depth,
            Some(start));
        lemma_seq_child_rows_len(cs.take(k), i + 1, open, start + stride, depth, Some(start));
        lemma_count_take_seq(cs, i + 1, k);
        let head_i = rows_model(cs[i], Some(open), depth, start);
        let next_i = if i + 1 < k {
            Some(start + stride)
        } else {
            None
        };
        let entry_before = (RowModel {
            prev_sibling: prev,
            next_sibling: next_i,
            index: i,
            ..head_i[0]
        });
        let entry_after = (RowModel {
            prev_sibling: prev,
            next_sibling: Some(start + stride),
            index: i,
            ..head_i[0]
        });
        assert(before == head_i.update(0, entry_before) + before_tail);
        assert(after == head_i.update(0, entry_after) + after_tail);
        let j = row_count_seq(cs, i) - row_count_seq(cs, k - 1);
        let jt = row_count_seq(cs, i + 1) - row_count_seq(cs, k - 1);
        assert(j == stride + jt);
        if k == i + 1 {
            assert(before_tail =~= Seq::<RowModel>::empty());
            assert(ek == start + stride);
            assert(prev_k == Some(start));
            assert(after_tail == patched);
            assert(after == head_i.update(0, entry_after) + patched);
            assert(j == 0);
            assert(before =~= head_i.update(0, entry_before));
            assert(before[0] == entry_before);
            assert((RowModel { next_sibling: Some(ek), ..before[0] }) == entry_after);
            assert(before.update(0, entry_after) =~= head_i.update(0, entry_after));
            assert(before.update(j, (RowModel { next_sibling: Some(ek), ..before[j] })) + patched
                == after);
        } else {
            assert(entry_before == entry_after);
            assert(after_tail == before_tail.update(
                jt,
                (RowModel { next_sibling: Some(ek), ..before_tail[jt] }),
            ) + patched);
            assert(head_i.len() == stride);
            assert(before_tail.len() == row_count_seq(cs, i + 1) - row_count_seq(cs, k));
            assert(0 <= jt < before_tail.len());
            assert(before[j] == before_tail[jt]);
            assert(before.update(j, (RowModel { next_sibling: Some(ek), ..before[j] }))
                =~= head_i.update(0, entry_before) + before_tail.update(
                jt,
                (RowModel { next_sibling: Some(ek), ..before_tail[jt] }),
            ));
            assert((head_i.update(0, entry_before) + before_tail.update(
                jt,
                (RowModel { next_sibling: Some(ek), ..before_tail[jt] }),
            )) + patched =~= head_i.update(0, entry_before) + (before_tail.update(
                jt,
                (RowModel { next_sibling: Some(ek), ..before_tail[jt] }),
            ) + patched));
            assert(before.update(j, (RowModel { next_sibling: Some(ek), ..before[j] })) + patched
                == after);
        }
    }
}

/// Laying out the first `k + 1` members instead of the first `k` appends
/// the block of member `k`, patched as an entry row, and threads the sibling
/// chain: the until-then last entry row's `next_sibling` is patched to point
/// at the new child's entry row.
proof fn lemma_child_rows_snoc_pairs(
    ps: Seq<(String, JsonValue)>,
    i: int,
    open: int,
    start: int,
    depth: int,
    prev: Option<int>,
    k: int,
)
    requires
        0 <= i <= k < ps.len(),
    ensures
        ({
            let before = pair_child_rows(ps.take(k), i, open, start, depth, prev);
            let after = pair_child_rows(ps.take(k + 1), i, open, start, depth, prev);
            let ek = start + row_count_pairs(ps, i) - row_count_pairs(ps, k);
            let head = rows_model(ps[k].1, Some(open), depth, ek);
            let prev_k = if k == i {
                prev
            } else {
                Some(start + row_count_pairs(ps, i) - row_count_pairs(ps, k - 1))
            };
            let patched = head.update(
                0,
                (RowModel { prev_sibling: prev_k, next_sibling: None, index: k, key: Some(ps[k].0@), ..head[0] }),
            );
            after == (if k == i {
                patched
            } else {
                let j = row_count_pairs(ps, i) - row_count_pairs(ps, k - 1);
                before.update(j, (RowModel { next_sibling: Some(ek), ..before[j] })) + patched
            })
        }),
    decreases k - i,
{
    let before = pair_child_rows(ps.take(k), i, open, start, depth, prev);
    let after = pair_child_rows(ps.take(k + 1), i, open, start, depth, prev);
    let ek = start + row_count_pairs(ps, i) - row_count_pairs(ps, k);
    let head = rows_model(ps[k].1, Some(open), depth, ek);
    let prev_k = if k == i {
        prev
    } else {
        Some(start + row_count_pairs(ps, i) - row_count_pairs(ps, k - 1))
    };
    let patched = head.update(
        0,
        (RowModel { prev_sibling: prev_k, next_sibling: None, index: k, key: Some(ps[k].0@), ..head[0] }),
    );
    lemma_rows_model_len(ps[k].1, Some(open), depth, ek);
    assert(ps.take(k + 1)[k] == ps[k]);
    if k == i {
        assert(row_count_pairs(ps, i) == row_count_pairs(ps, k));
        assert(pair_child_rows(ps.take(k + 1), i + 1, open, start + row_count(ps[k].1), depth,
            Some(start)) =~= Seq::<RowModel>::empty());
        assert(after =~= patched);
    } else {
        assert(ps.take(k)[i] == ps[i]);
        assert(ps.take(k + 1)[i] == ps[i]);
        let stride = row_count(ps[i].1);
        assert(row_count_pairs(ps, i) == stride + row_count_pairs(ps, i + 1));
        lemma_rows_model_len(ps[i].1, Some(open), depth, start);
        lemma_rows_model_len(ps[k - 1].1, Some(open), depth, 0);
        assert(row_count_pairs(ps, k - 1) == row_count(ps[k - 1].1) + row_count_pairs(ps, k));
        lemma_count_pairs_mono(ps, i + 1, k);
        if i + 1 <= k - 1 {
            lemma_count_pairs_mono(ps, i + 1, k - 1);
        }
        lemma_child_rows_snoc_pairs(ps, i + 1, open, start + stride, depth, Some(start), k);
        let before_tail = pair_child_rows(ps.take(k), i + 1, open, start + stride, depth,
            Some(start));
        let after_tail = pair_child_rows(ps.take(k + 1), i + 1, open, start + stride, depth,
            Some(start));
        lemma_pair_child_rows_len(ps.take(k), i + 1, open, start + stride, depth, Some(start));
        lemma_count_take_pairs(ps, i + 1, k);
        let head_i = rows_model(ps[i].1, Some(open), depth, start);
        let next_i = if i + 1 < k {
            Some(start + stride)
        } else {
            None
        };
        let entry_before = (RowModel {
            prev_sibling: prev,
            next_sibling: next_i,
            index: i,
            key: Some(ps[i].0@),
            ..head_i[0]
        });
        let entry_after = (RowModel {
            prev_sibling: prev,
            next_sibling: Some(start + stride),
            index: i,
            key: Some(ps[i].0@),
            ..head_i[0]
        });
        assert(before == head_i.update(0, entry_before) + before_tail);
        assert(after == head_i.update(0, entry_after) + after_tail);
        let j = row_count_pairs(ps, i) - row_count_pairs(ps, k - 1);
        let jt = row_count_pairs(ps, i + 1) - row_count_pairs(ps, k - 1);
        assert(j == stride + jt);
        if k == i + 1 {
            assert(before_tail =~= Seq::<RowModel>::empty());
            assert(ek == start + stride);
            assert(prev_k == Some(start));
            assert(after_tail == patched);
            assert(after == head_i.update(0, entry_after) + patched);
            assert(j == 0);
            assert(before =~= head_i.update(0, entry_before));
            assert(before[0] == entry_before);
            assert((RowModel { next_sibling: Some(ek), ..before[0] }) == entry_after);
            assert(before.update(0, entry_after) =~= head_i.update(0, entry_after));
            assert(before.update(j, (RowModel { next_sibling: Some(ek), ..before[j] })) + patched
                == after);
        } else {
            assert(entry_before == entry_after);
            assert(after_tail == before_tail.update(
                jt,
                (RowModel { next_sibling: Some(ek), ..before_tail[jt] }),
            ) + patched);
            assert(head_i.len() == stride);
            assert(before_tail.len() == row_count_pairs(ps, i + 1) - row_count_pairs(ps, k));
            assert(0 <= jt < before_tail.len());
            assert(before[j] == before_tail[jt]);
            assert(before.update(j, (RowModel { next_sibling: Some(ek), ..before[j] }))
                =~= head_i.update(0, entry_before) + before_tail.update(
                jt,
                (RowModel { next_sibling: Some(ek), ..before_tail[jt] }),
            ));
            assert((head_i.update(0, entry_before) + before_tail.update(
                jt,
                (RowModel { next_sibling: Some(ek), ..before_tail[jt] }),
            )) + patched =~= head_i.update(0, entry_before) + (before_tail.update(
                jt,
                (RowModel { next_sibling: Some(ek), ..before_tail[jt] }),
            ) + patched));
            assert(before.update(j, (RowModel { next_sibling: Some(ek), ..before[j] })) + patched
                == after);
        }
    }
}

proof fn lemma_count_take_pairs(ps: Seq<(String, JsonValue)>, i: int, k: int)
    requires
        0 <= i <= k <= ps.len(),
    ensures
        row_count_pairs(ps.take(k), i) == row_count_pairs(ps, i) - row_count_pairs(ps, k),
    decreases k - i,
{
    if i < k {
        assert(ps.take(k)[i] == ps[i]);
        lemma_count_take_pairs(ps, i + 1, k);
    }
}

/// The entry row of any subtree is a freshly appended row: only its payload
/// depends on the node, the cross-reference fields start unset.
proof fn lemma_rows_model_entry(v: JsonValue, parent: Option<int>, depth: int, start: int)
    ensures
        rows_model(v, parent, depth, start)[0] == blank_row(
            parent,
            depth,
            rows_model(v, parent, depth, start)[0].value,
        ),
{
    match v {
        JsonValue::Null => {},
        JsonValue::Boolean(_) => {},
        JsonValue::Number(_) => {},
        JsonValue::String(_) => {},
        JsonValue::Array(_) => {},
        JsonValue::Object(_) => {},
    }
}

/// Appends the rows of `v` to `flat_json`, in document order: `parent` and
/// `depth` come from the top of the parent stack, the open/close cross-links
/// and sibling chains are back-patched as each subtree completes, and the
/// result is exactly the row model of `v`. The appended block also satisfies
/// every structural law — open/close symmetry, first/last child, lineage and
/// sibling symmetry — provided the top of the parent stack, when it is an
/// index, points before the rows already present, as it does on every call
/// this crate makes.
#[verifier::loop_isolation(false)]
#[verifier::rlimit(100)]
pub fn flatten_json(v: &JsonValue, flat_json: &mut Vec<Row>, parents: &mut Vec<OptionIndex>)
    requires
        old(parents)@.len() >= 1,
        old(parents)@.last() matches OptionIndex::Index(t) ==> (t as int) < old(
            flat_json,
        )@.len(),
    ensures
        final(parents)@ == old(parents)@,
        rows_view(final(flat_json)@) == rows_view(old(flat_json)@) + rows_model(
            *v,
            old(parents)@.last()@,
            old(parents)@.len() - 1,
            old(flat_json)@.len() as int,
        ),
        segment_laws(
            rows_model(
                *v,
                old(parents)@.last()@,
                old(parents)@.len() - 1,
                old(flat_json)@.len() as int,
            ),
            old(flat_json)@.len() as int,
            old(parents)@.last()@,
            old(parents)@.len() - 1,
        ),
        rows_model(
            *v,
            old(parents)@.last()@,
            old(parents)@.len() - 1,
            old(flat_json)@.len() as int,
        )[0].parent == old(parents)@.last()@,
        rows_model(
            *v,
            old(parents)@.last()@,
            old(parents)@.len() - 1,
            old(flat_json)@.len() as int,
        )[0].depth == old(parents)@.len() - 1,
    decreases *v,
{
    let ghost base = old(flat_json)@;
    let ghost par = old(parents)@.last()@;
    let ghost d = old(parents)@.len() - 1;
    let ghost o = base.len() as int;
    let depth = parents.len() - 1;
    let parent = parents[parents.len() - 1];
    match v {
        JsonValue::Null => {
            flat_json.push(
                Row {
                    parent,
                    prev_sibling: OptionIndex::Nil,
                    next_sibling: OptionIndex::Nil,
                    depth,
                    index: 0,
                    key: None,
                    value: RowValue::Null,
                },
            );
            proof {
                assert(rows_view(flat_json@) =~= rows_view(base) + rows_model(*v, par, d, o));
            }
        },
        JsonValue::Boolean(b) => {
            flat_json.push(
                Row {
                    parent,
                    prev_sibling: OptionIndex::Nil,
                    next_sibling: OptionIndex::Nil,
                    depth,
                    index: 0,
                    key: None,
                    value: RowValue::Boolean(*b),
                },
            );
            proof {
                assert(rows_view(flat_json@) =~= rows_view(base) + rows_model(*v, par, d, o));
            }
        },
        JsonValue::Number(t) => {
            flat_json.push(
                Row {
                    parent,
                    prev_sibling: OptionIndex::Nil,
                    next_sibling: OptionIndex::Nil,
                    depth,
                    index: 0,
                    key: None,
                    value: RowValue::Number(t.clone()),
                },
            );
            proof {
                assert(rows_view(flat_json@) =~= rows_view(base) + rows_model(*v, par, d, o));
            }
        },
        JsonValue::String(s) => {
            flat_json.push(
                Row {
                    parent,
                    prev_sibling: OptionIndex::Nil,
                    next_sibling: OptionIndex::Nil,
                    depth,
                    index: 0,
                    key: None,
                    value: RowValue::String(s.clone()),
                },
            );
            proof {
                assert(rows_view(flat_json@) =~= rows_view(base) + rows_model(*v, par, d, o));
            }
        },
        JsonValue::Array(vs) => {
            if vs.len() == 0 {
                flat_json.push(
                    Row {
                        parent,
                        prev_sibling: OptionIndex::Nil,
                        next_sibling: OptionIndex::Nil,
                        depth,
                        index: 0,
                        key: None,
                        value: RowValue::EmptyArray,
                    },
                );
                proof {
                    assert(rows_view(flat_json@) =~= rows_view(base) + rows_model(*v, par, d, o));
                }
            } else {
                let ghost cs = vs@;
                let open_index = flat_json.len();
                parents.push(OptionIndex::Index(open_index));
                flat_json.push(
                    Row {
                        parent,
                        prev_sibling: OptionIndex::Nil,
                        next_sibling: OptionIndex::Nil,
                        depth,
                        index: 0,
                        key: None,
                        value: RowValue::OpenContainer {
                            container_type: ContainerType::Array,
                            first_child: 0,
                            close_index: 0,
                        },
                    },
                );
                let ghost ph = blank_row(
                    par,
                    d,
                    ValueModel::OpenContainer {
                        container_type: ContainerType::Array,
                        first_child: 0,
                        close_index: 0,
                    },
                );
                proof {
                    assert(rows_view(flat_json@) =~= rows_view(base) + seq![ph]);
                }
                let mut prev_sibling: OptionIndex = OptionIndex::Nil;
                let mut child_index: usize = 0;
                let mut i: usize = 0;
                while i < vs.len()
                    invariant
                        i <= cs.len(),
                        parents@ == old(parents)@.push(OptionIndex::Index(open_index)),
                        open_index as int == o,
                        rows_view(flat_json@) == rows_view(base) + seq![ph] + seq_child_rows(
                            cs.take(i as int),
                            0,
                            o,
                            o + 1,
                            d + 1,
                            None,
                        ),
                        flat_json@.len() == o + 1 + row_count_seq(cs, 0) - row_count_seq(
                            cs,
                            i as int,
                        ),
                        i == 0 ==> prev_sibling == OptionIndex::Nil,
                        i > 0 ==> child_index as int == o + 1 + row_count_seq(cs, 0)
                            - row_count_seq(cs, i - 1) && prev_sibling == OptionIndex::Index(
                            child_index,
                        ) && child_index < flat_json@.len(),
                    decreases cs.len() - i,
                {
                    proof {
                        lemma_count_seq_mono(cs, i as int, cs.len() as int);
                        lemma_count_seq_mono(cs, i + 1, cs.len() as int);
                        assert(row_count_seq(cs, i as int) == row_count(cs[i as int])
                            + row_count_seq(cs, i + 1));
                        lemma_rows_model_len(cs[i as int], Some(o), d + 1, flat_json@.len() as int);
                        assert((*v)->Array_0 == *vs);
                        assert(decreases_to!(*v => (*v)->Array_0));
                        assert(decreases_to!(*vs => vs@));
                        assert(decreases_to!(vs@ => vs@[i as int]));
                        assert(decreases_to!(*v => vs@[i as int]));
                    }
                    child_index = flat_json.len();
                    let ghost ei = child_index as int;
                    let ghost prev_entry = prev_sibling;
                    flatten_json(&vs[i], flat_json, parents);
                    let ghost after_call = flat_json@;
                    proof {
                        lemma_rows_model_len(cs[i as int], Some(o), d + 1, ei);
                        lemma_rows_model_entry(cs[i as int], Some(o), d + 1, ei);
                        lemma_seq_child_rows_len(cs.take(i as int), 0, o, o + 1, d + 1, None);
                        lemma_count_take_seq(cs, 0, i as int);
                        assert(rows_view(after_call) =~= (rows_view(base) + seq![ph]
                            + seq_child_rows(cs.take(i as int), 0, o, o + 1, d + 1, None))
                            + rows_model(cs[i as int], Some(o), d + 1, ei));
                        assert(child_index < after_call.len());
                    }
                    let r = &mut flat_json[child_index];
                    r.index = i;
                    r.prev_sibling = prev_sibling;
                    let ghost after_entry = flat_json@;
                    if let OptionIndex::Index(prev_idx) = prev_sibling {
                        let p = &mut flat_json[prev_idx];
                        p.next_sibling = OptionIndex::Index(child_index);
                    }
                    proof {
                        let head = rows_model(cs[i as int], Some(o), d + 1, ei);
                        let scr_i = seq_child_rows(cs.take(i as int), 0, o, o + 1, d + 1, None);
                        lemma_child_rows_snoc_seq(cs, 0, o, o + 1, d + 1, None, i as int);
                        assert(scr_i.len() == ei - o - 1);
                        assert(rows_view(after_call)[ei] == head[0]);
                        assert(after_entry == after_call.update(ei, after_entry[ei]));
                        lemma_rows_view_update(after_call, ei, after_entry[ei]);
                        assert(after_entry[ei]@ == (RowModel {
                            prev_sibling: prev_entry@,
                            next_sibling: None,
                            index: i as int,
                            ..head[0]
                        }));
                        if i > 0 {
                            let pj = prev_entry->Index_0 as int;
                            assert(prev_entry@ == Some(o + 1 + row_count_seq(cs, 0)
                                - row_count_seq(cs, i - 1)));
                            lemma_count_seq_mono(cs, 0, i - 1);
                            assert(row_count_seq(cs, i - 1) == row_count(cs[i - 1])
                                + row_count_seq(cs, i as int));
                            lemma_rows_model_len(cs[i - 1], Some(o), d + 1, pj);
                            assert(pj < ei);
                            assert(flat_json@ == after_entry.update(pj, flat_json@[pj]));
                            lemma_rows_view_update(after_entry, pj, flat_json@[pj]);
                            assert(rows_view(after_entry)[pj] == scr_i[pj - o - 1]);
                            assert(flat_json@[pj]@ == (RowModel {
                                next_sibling: Some(ei),
                                ..scr_i[pj - o - 1]
                            }));
                        }
                        assert(rows_view(flat_json@) =~= rows_view(base) + seq![ph]
                            + seq_child_rows(cs.take(i + 1), 0, o, o + 1, d + 1, None));
                    }
                    prev_sibling = OptionIndex::Index(child_index);
                    i += 1;
                }
                proof {
                    assert(cs.take(cs.len() as int) =~= cs);
                    assert(row_count_seq(cs, cs.len() as int) == 0);
                    assert(row_count_seq(cs, cs.len() - 1) == row_count(cs[cs.len() - 1]));
                    lemma_seq_child_rows_len(cs, 0, o, o + 1, d + 1, None);
                }
                let close_index = flat_json.len();
                let ghost pre_close = flat_json@;
                flat_json.push(
                    Row {
                        parent,
                        prev_sibling: OptionIndex::Nil,
                        next_sibling: OptionIndex::Nil,
                        depth,
                        index: 0,
                        key: None,
                        value: RowValue::CloseContainer {
                            container_type: ContainerType::Array,
                            last_child: child_index,
                            open_index,
                        },
                    },
                );
                let ghost after_close = flat_json@;
                let first_child = open_index + 1;
                let r = &mut flat_json[open_index];
                r.value = RowValue::OpenContainer {
                    container_type: ContainerType::Array,
                    first_child,
                    close_index,
                };
                let _ = parents.pop();
                proof {
                    assert(parents@ =~= old(parents)@);
                    assert(after_close == pre_close.push(after_close.last()));
                    lemma_rows_view_push(pre_close, after_close.last());
                    assert(after_close.last()@ == blank_row(
                        par,
                        d,
                        ValueModel::CloseContainer {
                            container_type: ContainerType::Array,
                            last_child: last_entry_seq(cs, o + 1),
                            open_index: o,
                        },
                    ));
                    assert(rows_view(after_close) =~= rows_view(base) + seq![ph]
                        + seq_child_rows(cs, 0, o, o + 1, d + 1, None) + seq![
                        blank_row(
                            par,
                            d,
                            ValueModel::CloseContainer {
                                container_type: ContainerType::Array,
                                last_child: last_entry_seq(cs, o + 1),
                                open_index: o,
                            },
                        ),
                    ]);
                    assert(flat_json@ == after_close.update(o, flat_json@[o]));
                    lemma_rows_view_update(after_close, o, flat_json@[o]);
                    assert(after_close[o]@ == rows_view(after_close)[o]);
                    assert(after_close[o]@ == ph);
                    assert(flat_json@[o]@ == blank_row(
                        par,
                        d,
                        ValueModel::OpenContainer {
                            container_type: ContainerType::Array,
                            first_child: o + 1,
                            close_index: o + 1 + row_count_seq(cs, 0),
                        },
                    ));
                    assert(rows_view(flat_json@) =~= rows_view(base) + rows_model(*v, par, d, o));
                }
            }
        },
        JsonValue::Object(vs) => {
            if vs.len() == 0 {
                flat_json.push(
                    Row {
                        parent,
                        prev_sibling: OptionIndex::Nil,
                        next_sibling: OptionIndex::Nil,
                        depth,
                        index: 0,
                        key: None,
                        value: RowValue::EmptyObject,
                    },
                );
                proof {
                    assert(rows_view(flat_json@) =~= rows_view(base) + rows_model(*v, par, d, o));
                }
            } else {
                let ghost ps = vs@;
                let open_index = flat_json.len();
                parents.push(OptionIndex::Index(open_index));
                flat_json.push(
                    Row {
                        parent,
                        prev_sibling: OptionIndex::Nil,
                        next_sibling: OptionIndex::Nil,
                        depth,
                        index: 0,
                        key: None,
                        value: RowValue::OpenContainer {
                            container_type: ContainerType::Object,
                            first_child: 0,
                            close_index: 0,
                        },
                    },
                );
                let ghost ph = blank_row(
                    par,
                    d,
                    ValueModel::OpenContainer {
                        container_type: ContainerType::Object,
                        first_child: 0,
                        close_index: 0,
                    },
                );
                proof {
                    assert(rows_view(flat_json@) =~= rows_view(base) + seq![ph]);
                }
                let mut prev_sibling: OptionIndex = OptionIndex::Nil;
                let mut child_index: usize = 0;
                let mut i: usize = 0;
                while i < vs.len()
                    invariant
                        i <= ps.len(),
                        parents@ == old(parents)@.push(OptionIndex::Index(open_index)),
                        open_index as int == o,
                        rows_view(flat_json@) == rows_view(base) + seq![ph] + pair_child_rows(
                            ps.take(i as int),
                            0,
                            o,
                            o + 1,
                            d + 1,
                            None,
                        ),
                        flat_json@.len() == o + 1 + row_count_pairs(ps, 0) - row_count_pairs(
                            ps,
                            i as int,
                        ),
                        i == 0 ==> prev_sibling == OptionIndex::Nil,
                        i > 0 ==> child_index as int == o + 1 + row_count_pairs(ps, 0)
                            - row_count_pairs(ps, i - 1) && prev_sibling == OptionIndex::Index(
                            child_index,
                        ) && child_index < flat_json@.len(),
                    decreases ps.len() - i,
                {
                    proof {
                        lemma_count_pairs_mono(ps, i as int, ps.len() as int);
                        lemma_count_pairs_mono(ps, i + 1, ps.len() as int);
                        assert(row_count_pairs(ps, i as int) == row_count(ps[i as int].1)
                            + row_count_pairs(ps, i + 1));
                        lemma_rows_model_len(ps[i as int].1, Some(o), d + 1, flat_json@.len() as int);
                        assert((*v)->Object_0 == *vs);
                        assert(decreases_to!(*v => (*v)->Object_0));
                        assert(decreases_to!(*vs => vs@));
                        assert(decreases_to!(vs@ => vs@[i as int]));
                        assert(decreases_to!(*v => vs@[i as int].1));
                    }
                    child_index = flat_json.len();
                    let ghost ei = child_index as int;
                    let ghost prev_entry = prev_sibling;
                    flatten_json(&vs[i].1, flat_json, parents);
                    let ghost after_call = flat_json@;
                    proof {
                        lemma_rows_model_len(ps[i as int].1, Some(o), d + 1, ei);
                        lemma_rows_model_entry(ps[i as int].1, Some(o), d + 1, ei);
                        lemma_pair_child_rows_len(ps.take(i as int), 0, o, o + 1, d + 1, None);
                        lemma_count_take_pairs(ps, 0, i as int);
                        assert(rows_view(after_call) =~= (rows_view(base) + seq![ph]
                            + pair_child_rows(ps.take(i as int), 0, o, o + 1, d + 1, None))
                            + rows_model(ps[i as int].1, Some(o), d + 1, ei));
                        assert(child_index < after_call.len());
                    }
                    let r = &mut flat_json[child_index];
                    r.index = i;
                    r.prev_sibling = prev_sibling;
                    r.key = Some(vs[i].0.clone());
                    let ghost after_entry = flat_json@;
                    if let OptionIndex::Index(prev_idx) = prev_sibling {
                        let p = &mut flat_json[prev_idx];
                        p.next_sibling = OptionIndex::Index(child_index);
                    }
                    proof {
                        let head = rows_model(ps[i as int].1, Some(o), d + 1, ei);
                        let scr_i = pair_child_rows(ps.take(i as int), 0, o, o + 1, d + 1, None);
                        lemma_child_rows_snoc_pairs(ps, 0, o, o + 1, d + 1, None, i as int);
                        assert(scr_i.len() == ei - o - 1);
                        assert(rows_view(after_call)[ei] == head[0]);
                        assert(after_entry == after_call.update(ei, after_entry[ei]));
                        lemma_rows_view_update(after_call, ei, after_entry[ei]);
                        assert(after_entry[ei]@ == (RowModel {
                            prev_sibling: prev_entry@,
                            next_sibling: None,
                            index: i as int,
                            key: Some(ps[i as int].0@),
                            ..head[0]
                        }));
                        if i > 0 {
                            let pj = prev_entry->Index_0 as int;
                            assert(prev_entry@ == Some(o + 1 + row_count_pairs(ps, 0)
                                - row_count_pairs(ps, i - 1)));
                            lemma_count_pairs_mono(ps, 0, i - 1);
                            assert(row_count_pairs(ps, i - 1) == row_count(ps[i - 1].1)
                                + row_count_pairs(ps, i as int));
                            lemma_rows_model_len(ps[i - 1].1, Some(o), d + 1, pj);
                            assert(pj < ei);
                            assert(flat_json@ == after_entry.update(pj, flat_json@[pj]));
                            lemma_rows_view_update(after_entry, pj, flat_json@[pj]);
                            assert(rows_view(after_entry)[pj] == scr_i[pj - o - 1]);
                            assert(flat_json@[pj]@ == (RowModel {
                                next_sibling: Some(ei),
                                ..scr_i[pj - o - 1]
                            }));
                        }
                        assert(rows_view(flat_json@) =~= rows_view(base) + seq![ph]
                            + pair_child_rows(ps.take(i + 1), 0, o, o + 1, d + 1, None));
                    }
                    prev_sibling = OptionIndex::Index(child_index);
                    i += 1;
                }
                proof {
                    assert(ps.take(ps.len() as int) =~= ps);
                    assert(row_count_pairs(ps, ps.len() as int) == 0);
                    assert(row_count_pairs(ps, ps.len() - 1) == row_count(ps[ps.len() - 1].1));
                    lemma_pair_child_rows_len(ps, 0, o, o + 1, d + 1, None);
                }
                let close_index = flat_json.len();
                let ghost pre_close = flat_json@;
                flat_json.push(
                    Row {
                        parent,
                        prev_sibling: OptionIndex::Nil,
                        next_sibling: OptionIndex::Nil,
                        depth,
                        index: 0,
                        key: None,
                        value: RowValue::CloseContainer {
                            container_type: ContainerType::Object,
                            last_child: child_index,
                            open_index,
                        },
                    },
                );
                let ghost after_close = flat_json@;
                let first_child = open_index + 1;
                let r = &mut flat_json[open_index];
                r.value = RowValue::OpenContainer {
                    container_type: ContainerType::Object,
                    first_child,
                    close_index,
                };
                let _ = parents.pop();
                proof {
                    assert(parents@ =~= old(parents)@);
                    assert(after_close == pre_close.push(after_close.last()));
                    lemma_rows_view_push(pre_close, after_close.last());
                    assert(after_close.last()@ == blank_row(
                        par,
                        d,
                        ValueModel::CloseContainer {
                            container_type: ContainerType::Object,
                            last_child: last_entry_pairs(ps, o + 1),
                            open_index: o,
                        },
                    ));
                    assert(rows_view(after_close) =~= rows_view(base) + seq![ph]
                        + pair_child_rows(ps, 0, o, o + 1, d + 1, None) + seq![
                        blank_row(
                            par,
                            d,
                            ValueModel::CloseContainer {
                                container_type: ContainerType::Object,
                                last_child: last_entry_pairs(ps, o + 1),
                                open_index: o,
                            },
                        ),
                    ]);
                    assert(flat_json@ == after_close.update(o, flat_json@[o]));
                    lemma_rows_view_update(after_close, o, flat_json@[o]);
                    assert(after_close[o]@ == rows_view(after_close)[o]);
                    assert(after_close[o]@ == ph);
                    assert(flat_json@[o]@ == blank_row(
                        par,
                        d,
                        ValueModel::OpenContainer {
                            container_type: ContainerType::Object,
                            first_child: o + 1,
                            close_index: o + 1 + row_count_pairs(ps, 0),
                        },
                    ));
                    assert(rows_view(flat_json@) =~= rows_view(base) + rows_model(*v, par, d, o));
                }
            }
        },
    }
    proof {
        lemma_seg(*v, par, d, o);
    }
}

/// Flattens a whole value tree into the finished flat structure: one row
/// per node plus one close row per non-empty container, in document order,
/// with the top-level value at depth 0 and no parent.
pub fn flatten_value(v: &JsonValue) -> (fj: FlatJson)
    ensures
        fj@ == rows_model(*v, None, 0, 0),
{
    let mut flat_json: Vec<Row> = Vec::new();
    let mut parents: Vec<OptionIndex> = Vec::new();
    parents.push(OptionIndex::Nil);
    flatten_json(v, &mut flat_json, &mut parents);
    proof {
        assert(rows_view(flat_json@) =~= rows_model(*v, None, 0, 0));
    }
    FlatJson(flat_json)
}

} // verus!
