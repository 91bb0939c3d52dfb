//! Cursor-indexed content store.
//!
//! The store keeps the authoritative ordered sequence of content elements for
//! one sequence container, each tagged with its originating identifier and its
//! causal status, together with a log of every integrated operation. Content
//! is never physically removed: deleted elements remain as tombstones so that
//! future concurrent operations can still be merged.
//!
//! The mathematical model is one element per operation identifier, in document
//! order. A physical content span is a run of consecutive elements; splitting
//! a span when an operation addresses only part of it is therefore implicit,
//! and the coverage invariant — the elements' identifiers partition exactly
//! the set of integrated insert identifiers — is part of [`Tracker::wf`].

use vstd::prelude::*;

use crate::ids::{ID, IdSpan};

verus! {

/// One unit of tracked content: a single identifier with its payload byte and
/// causal status. `cur` says whether the surrounding view has integrated the
/// insertion; `dels` counts the concurrent delete operations that target it
/// (saturating at `u64::MAX`). The element is visible iff it is current and
/// no delete targets it.
#[derive(Clone, Copy, Debug, PartialEq, Eq, Structural)]
pub struct Elem {
    pub client: u64,
    pub ctr: i32,
    pub byte: u8,
    pub cur: bool,
    pub dels: u64,
}

/// A causal status transition applied to stored content.
#[derive(Clone, Copy, Debug, PartialEq, Eq, Structural)]
pub enum StatusChange {
    SetAsCurrent,
    Delete,
    UndoDelete,
}

/// An integrated operation: an insertion of a run of content, or a delete
/// whose targets describe which previously inserted content it removes.
#[derive(Clone, Debug)]
pub enum OpRec {
    Ins { span: IdSpan },
    Del { client: u64, start: i32, len: usize, targets: Vec<IdSpan> },
}

/// Failure reported by the store.
#[derive(Clone, Copy, Debug, PartialEq, Eq, Structural)]
pub enum StoreError {
    /// An operation referenced an identifier that was never integrated: a
    /// causal-ordering violation by the caller.
    UnknownId,
    /// An operation's identifier range collides with an already integrated,
    /// different operation.
    Overlap,
    /// A span or position was malformed or out of bounds.
    OutOfRange,
}

/// The content store for one sequence container.
pub struct Tracker {
    pub elems: Vec<Elem>,
    pub ops: Vec<OpRec>,
    /// Parallel to `ops`: whether a delete operation's targets have been
    /// applied by an effect pass. Unused (false) for insert records.
    pub fired: Vec<bool>,
}

/// A position-addressed edit effect, in the exact order a rendering layer
/// must apply them for the view to stay consistent at every step.
#[derive(Clone, Debug, PartialEq, Eq)]
pub enum Effect {
    Del { pos: usize, len: usize },
    Ins { pos: usize, content: Vec<u8> },
}

/// The result of resolving the start of an identifier span against the
/// store: a run of content elements, or the covering delete operation. The
/// cursor is only valid until the store is next mutated.
#[derive(Clone, Copy, Debug, PartialEq, Eq, Structural)]
pub enum FirstCursor {
    Ins { idx: usize, len: usize },
    Del { op_idx: usize, offset: usize, len: usize },
}

/// One elementary view change: a single byte appearing at or vanishing from a
/// visible position. Coalesced [`Effect`]s expand into these.
pub enum EffectStep {
    AddChar { pos: int, byte: u8 },
    DelChar { pos: int },
}

pub open spec fn elem_visible(e: Elem) -> bool {
    e.cur && e.dels == 0
}

/// Number of visible elements among the first `upto`.
pub open spec fn vis_count(es: Seq<Elem>, upto: int) -> int
    decreases upto,
{
    if upto <= 0 {
        0
    } else {
        vis_count(es, upto - 1) + if 0 <= upto - 1 < es.len() && elem_visible(es[upto - 1]) {
            1int
        } else {
            0int
        }
    }
}

/// The visible content, in document order.
pub open spec fn visible_bytes(es: Seq<Elem>) -> Seq<u8> {
    es.filter(|e: Elem| elem_visible(e)).map_values(|e: Elem| e.byte)
}

pub open spec fn has_elem(es: Seq<Elem>, client: u64, c: int) -> bool {
    exists|i: int| 0 <= i < es.len() && es[i].client == client && es[i].ctr == c
}

pub open spec fn elem_idx(es: Seq<Elem>, client: u64, c: int) -> int {
    choose|i: int| 0 <= i < es.len() && es[i].client == client && es[i].ctr == c
}

/// No identifier is covered by two elements.
pub open spec fn uniq_elems(es: Seq<Elem>) -> bool {
    forall|i: int, j: int|
        0 <= i < j < es.len() ==> !(es[i].client == es[j].client && es[i].ctr == es[j].ctr)
}

pub open spec fn sat_inc(d: u64) -> u64 {
    if d == u64::MAX {
        d
    } else {
        (d + 1) as u64
    }
}

pub open spec fn apply_status(e: Elem, change: StatusChange) -> Elem {
    match change {
        StatusChange::SetAsCurrent => Elem { cur: true, ..e },
        StatusChange::Delete => Elem { dels: sat_inc(e.dels), ..e },
        StatusChange::UndoDelete => Elem {
            dels: if e.dels > 0 {
                (e.dels - 1) as u64
            } else {
                0
            },
            ..e
        },
    }
}

/// Marking one identifier as current: the element (if any) becomes current,
/// and a character appears exactly when the element was not yet current and
/// carries no delete.
pub open spec fn set_cur_step(es: Seq<Elem>, client: u64, c: int) -> (Seq<Elem>, Seq<EffectStep>) {
    if has_elem(es, client, c) {
        let i = elem_idx(es, client, c);
        let e = es[i];
        if e.cur {
            (es, Seq::<EffectStep>::empty())
        } else {
            let es2 = es.update(i, Elem { cur: true, ..e });
            if e.dels == 0 {
                (es2, seq![EffectStep::AddChar { pos: vis_count(es, i), byte: e.byte }])
            } else {
                (es2, Seq::<EffectStep>::empty())
            }
        }
    } else {
        (es, Seq::<EffectStep>::empty())
    }
}

/// Marking one identifier deleted once more: the delete count grows, and a
/// character vanishes exactly when the element was visible before.
pub open spec fn del_step(es: Seq<Elem>, client: u64, c: int) -> (Seq<Elem>, Seq<EffectStep>) {
    if has_elem(es, client, c) {
        let i = elem_idx(es, client, c);
        let e = es[i];
        let es2 = es.update(i, Elem { dels: sat_inc(e.dels), ..e });
        if elem_visible(e) {
            (es2, seq![EffectStep::DelChar { pos: vis_count(es, i) }])
        } else {
            (es2, Seq::<EffectStep>::empty())
        }
    } else {
        (es, Seq::<EffectStep>::empty())
    }
}

/// Folding [`del_step`] over the counter range `[lo, hi)` of one client.
pub open spec fn del_range(es: Seq<Elem>, client: u64, lo: int, hi: int) -> (
    Seq<Elem>,
    Seq<EffectStep>,
)
    decreases hi - lo,
{
    if lo >= hi {
        (es, Seq::<EffectStep>::empty())
    } else {
        let (es1, u1) = del_step(es, client, lo);
        let (es2, u2) = del_range(es1, client, lo + 1, hi);
        (es2, u1 + u2)
    }
}

/// Folding [`del_range`] over a list of target spans.
pub open spec fn fire_targets(es: Seq<Elem>, ts: Seq<IdSpan>) -> (Seq<Elem>, Seq<EffectStep>)
    decreases ts.len(),
{
    if ts.len() == 0 {
        (es, Seq::<EffectStep>::empty())
    } else {
        let (es1, u1) = del_range(es, ts[0].client, ts[0].start as int, ts[0].end as int);
        let (es2, u2) = fire_targets(es1, ts.drop_first());
        (es2, u1 + u2)
    }
}

/// Expansion of delete regions into elementary steps: deleting `len`
/// characters at `pos` is deleting at `pos`, `len` times.
pub open spec fn expand_del(rs: Seq<(usize, usize)>) -> Seq<EffectStep>
    decreases rs.len(),
{
    if rs.len() == 0 {
        Seq::<EffectStep>::empty()
    } else {
        del_chars(rs[0].0 as int, rs[0].1 as int) + expand_del(rs.drop_first())
    }
}

/// The canonical shape of a reported region list: every region is
/// non-empty and consecutive regions sit at distinct positions, so a step
/// sequence has exactly one such decomposition.
pub open spec fn regions_canonical(rs: Seq<(usize, usize)>) -> bool {
    &&& (forall|k: int| 0 <= k < rs.len() ==> (#[trigger] rs[k]).1 >= 1)
    &&& (forall|k: int| 0 <= k < rs.len() - 1 ==> (#[trigger] rs[k]).0 != rs[k + 1].0)
}

/// A delete pass emits at most one elementary step per targeted counter.
pub proof fn lemma_del_range_units_len(es: Seq<Elem>, client: u64, lo: int, hi: int)
    ensures
        del_range(es, client, lo, hi).1.len() <= if hi >= lo {
            hi - lo
        } else {
            0
        },
    decreases hi - lo,
{
    if lo < hi {
        let (es1, u1) = del_step(es, client, lo);
        assert(u1.len() <= 1);
        lemma_del_range_units_len(es1, client, lo + 1, hi);
    }
}

/// The expansion of a region list splits at any index.
pub proof fn lemma_expand_del_split(rs: Seq<(usize, usize)>, j: int)
    requires
        0 <= j <= rs.len(),
    ensures
        expand_del(rs) == expand_del(rs.take(j)) + expand_del(rs.skip(j)),
    decreases j,
{
    if j == 0 {
        assert(rs.take(0) =~= Seq::<(usize, usize)>::empty());
        assert(rs.skip(0) =~= rs);
        assert(expand_del(rs.take(0)) + expand_del(rs) =~= expand_del(rs));
    } else {
        lemma_expand_del_split(rs, j - 1);
        let suf = rs.skip(j - 1);
        assert(suf.len() > 0);
        assert(suf[0] == rs[j - 1]);
        assert(suf.drop_first() =~= rs.skip(j));
        assert(rs.take(j) =~= rs.take(j - 1).push(rs[j - 1]));
        lemma_expand_del_snoc(rs.take(j - 1), rs[j - 1]);
        assert(expand_del(suf) == del_chars(rs[j - 1].0 as int, rs[j - 1].1 as int) + expand_del(
            rs.skip(j),
        ));
        assert((expand_del(rs.take(j - 1)) + del_chars(rs[j - 1].0 as int, rs[j - 1].1 as int))
            + expand_del(rs.skip(j)) =~= expand_del(rs.take(j - 1)) + (del_chars(
            rs[j - 1].0 as int,
            rs[j - 1].1 as int,
        ) + expand_del(rs.skip(j))));
    }
}

/// A canonical region list with an empty expansion is empty: a delete pass
/// that hides nothing reports no region.
pub proof fn lemma_empty_canonical_regions(rs: Seq<(usize, usize)>)
    requires
        regions_canonical(rs),
        expand_del(rs) == Seq::<EffectStep>::empty(),
    ensures
        rs == Seq::<(usize, usize)>::empty(),
{
    if rs.len() > 0 {
        assert(rs[0].1 >= 1);
        assert(expand_del(rs) == del_chars(rs[0].0 as int, rs[0].1 as int) + expand_del(
            rs.drop_first(),
        ));
        assert(del_chars(rs[0].0 as int, rs[0].1 as int).len() == rs[0].1);
        assert(expand_del(rs).len() >= rs[0].1);
        assert(false);
    }
    assert(rs =~= Seq::<(usize, usize)>::empty());
}

/// The canonical decomposition of a step sequence into regions is unique:
/// the region list a delete pass reports is fully pinned by its contract.
#[verifier::rlimit(60)]
pub proof fn lemma_canonical_regions_unique(r1: Seq<(usize, usize)>, r2: Seq<(usize, usize)>)
    requires
        regions_canonical(r1),
        regions_canonical(r2),
        expand_del(r1) == expand_del(r2),
    ensures
        r1 == r2,
    decreases r1.len(),
{
    if r1.len() == 0 {
        lemma_empty_canonical_regions(r2);
        assert(r1 =~= r2);
    } else if r2.len() == 0 {
        lemma_empty_canonical_regions(r1);
        assert(r1 =~= r2);
    } else {
        let p1 = r1[0].0 as int;
        let l1 = r1[0].1 as int;
        let p2 = r2[0].0 as int;
        let l2 = r2[0].1 as int;
        let e1 = expand_del(r1);
        let t1 = expand_del(r1.drop_first());
        let t2 = expand_del(r2.drop_first());
        assert(e1 == del_chars(p1, l1) + t1);
        assert(e1 == del_chars(p2, l2) + t2);
        assert(e1[0] == (EffectStep::DelChar { pos: p1 }));
        assert(e1[0] == (EffectStep::DelChar { pos: p2 }));
        assert(p1 == p2);
        if l1 < l2 {
            // The step at index l1 opens r1's second region, which sits at a
            // different position, yet r2's first region still covers it.
            assert(e1[l1] == (EffectStep::DelChar { pos: p2 }));
            if r1.drop_first().len() == 0 {
                assert(e1.len() == l1);
                assert(e1.len() >= l2);
                assert(false);
            } else {
                let q = r1.drop_first()[0];
                assert(r1[1] == q);
                assert(q.1 >= 1);
                assert(t1 == del_chars(q.0 as int, q.1 as int) + expand_del(
                    r1.drop_first().drop_first(),
                ));
                assert(t1[0] == (EffectStep::DelChar { pos: q.0 as int }));
                assert(e1[l1] == t1[0]);
                assert(q.0 != r1[0].0);
                assert(false);
            }
        }
        if l2 < l1 {
            assert(e1[l2] == (EffectStep::DelChar { pos: p1 }));
            if r2.drop_first().len() == 0 {
                assert(e1.len() == l2);
                assert(e1.len() >= l1);
                assert(false);
            } else {
                let q = r2.drop_first()[0];
                assert(r2[1] == q);
                assert(q.1 >= 1);
                assert(t2 == del_chars(q.0 as int, q.1 as int) + expand_del(
                    r2.drop_first().drop_first(),
                ));
                assert(t2[0] == (EffectStep::DelChar { pos: q.0 as int }));
                assert(e1[l2] == t2[0]);
                assert(q.0 != r2[0].0);
                assert(false);
            }
        }
        assert(l1 == l2);
        assert(t1.len() == e1.len() - l1 && t2.len() == e1.len() - l2);
        assert forall|j: int| 0 <= j < t1.len() implies t1[j] == t2[j] by {
            assert(t1[j] == (del_chars(p1, l1) + t1)[l1 + j]);
            assert(t2[j] == (del_chars(p2, l2) + t2)[l2 + j]);
        }
        assert(t1 =~= t2);
        assert(regions_canonical(r1.drop_first())) by {
            assert forall|k: int|
                0 <= k < r1.drop_first().len() implies (#[trigger] r1.drop_first()[k]).1
                >= 1 by {
                assert(r1.drop_first()[k] == r1[k + 1]);
            }
            assert forall|k: int|
                0 <= k < r1.drop_first().len() - 1 implies (#[trigger] r1.drop_first()[k]).0
                != r1.drop_first()[k + 1].0 by {
                assert(r1.drop_first()[k] == r1[k + 1] && r1.drop_first()[k + 1] == r1[k + 2]);
                assert((#[trigger] r1[k + 1]).0 != r1[k + 2].0);
            }
        }
        assert(regions_canonical(r2.drop_first())) by {
            assert forall|k: int|
                0 <= k < r2.drop_first().len() implies (#[trigger] r2.drop_first()[k]).1
                >= 1 by {
                assert(r2.drop_first()[k] == r2[k + 1]);
            }
            assert forall|k: int|
                0 <= k < r2.drop_first().len() - 1 implies (#[trigger] r2.drop_first()[k]).0
                != r2.drop_first()[k + 1].0 by {
                assert(r2.drop_first()[k] == r2[k + 1] && r2.drop_first()[k + 1] == r2[k + 2]);
                assert((#[trigger] r2[k + 1]).0 != r2[k + 2].0);
            }
        }
        lemma_canonical_regions_unique(r1.drop_first(), r2.drop_first());
        assert(r1.drop_first().len() == r2.drop_first().len());
        assert(r1.len() == r2.len());
        assert(r1[0] == r2[0]);
        assert forall|k: int| 0 <= k < r1.len() implies r1[k] == r2[k] by {
            if k > 0 {
                assert(r1[k] == r1.drop_first()[k - 1]);
                assert(r2[k] == r2.drop_first()[k - 1]);
                assert(r1.drop_first()[k - 1] == r2.drop_first()[k - 1]);
            }
        }
        assert(r1 =~= r2);
    }
}

pub open spec fn del_chars(pos: int, len: int) -> Seq<EffectStep> {
    Seq::new(if len >= 0 {
        len as nat
    } else {
        0
    }, |k: int| EffectStep::DelChar { pos })
}

// ---------------------------------------------------------------------------
// Operation records, as the specification sees them.
// ---------------------------------------------------------------------------

pub open spec fn spans_total_len(ts: Seq<IdSpan>) -> int
    decreases ts.len(),
{
    if ts.len() == 0 {
        0
    } else {
        ts[0].spec_len() + spans_total_len(ts.drop_first())
    }
}

pub open spec fn op_client(o: OpRec) -> u64 {
    match o {
        OpRec::Ins { span } => span.client,
        OpRec::Del { client, .. } => client,
    }
}

pub open spec fn op_start(o: OpRec) -> int {
    match o {
        OpRec::Ins { span } => span.start as int,
        OpRec::Del { start, .. } => start as int,
    }
}

/// How many consecutive identifiers the operation occupies: an insert one per
/// content element, a delete one per deleted element.
pub open spec fn op_id_len(o: OpRec) -> int {
    match o {
        OpRec::Ins { span } => span.spec_len(),
        OpRec::Del { len, .. } => len as int,
    }
}

pub open spec fn op_covers(o: OpRec, client: u64, c: int) -> bool {
    op_client(o) == client && op_start(o) <= c < op_start(o) + op_id_len(o)
}

pub open spec fn has_op(ops: Seq<OpRec>, client: u64, c: int) -> bool {
    exists|oi: int| 0 <= oi < ops.len() && op_covers(ops[oi], client, c)
}

pub open spec fn op_idx(ops: Seq<OpRec>, client: u64, c: int) -> int {
    choose|oi: int| 0 <= oi < ops.len() && op_covers(ops[oi], client, c)
}

pub open spec fn op_wf(o: OpRec) -> bool {
    match o {
        OpRec::Ins { span } => span.wf() && span.spec_len() > 0,
        OpRec::Del { client, start, len, targets } => {
            &&& 0 <= start
            &&& (forall|j: int| 0 <= j < targets@.len() ==> (#[trigger] targets@[j]).wf())
            &&& len == spans_total_len(targets@)
            &&& len > 0
            &&& start + len <= i32::MAX
        },
    }
}

/// Identifier ranges of two distinct operations never overlap.
pub open spec fn ops_disjoint(ops: Seq<OpRec>) -> bool {
    forall|oi: int, oj: int, client: u64, c: int|
        0 <= oi < oj < ops.len() ==> !(#[trigger] op_covers(ops[oi], client, c)
            && #[trigger] op_covers(ops[oj], client, c))
}

pub open spec fn is_ins_op(o: OpRec) -> bool {
    match o {
        OpRec::Ins { .. } => true,
        OpRec::Del { .. } => false,
    }
}

/// An identifier integrated as content: covered by some insert record.
pub open spec fn has_ins_op(ops: Seq<OpRec>, client: u64, c: int) -> bool {
    exists|oi: int| 0 <= oi < ops.len() && is_ins_op(ops[oi]) && #[trigger] op_covers(
        ops[oi],
        client,
        c,
    )
}

/// Every identifier listed among a delete record's targets is integrated.
pub open spec fn del_targets_integrated(o: OpRec, es: Seq<Elem>) -> bool {
    match o {
        OpRec::Ins { .. } => true,
        OpRec::Del { targets, .. } => forall|j: int, c: int|
            0 <= j < targets@.len() && targets@[j].covers(targets@[j].client, c)
                ==> #[trigger] has_elem(es, targets@[j].client, c),
    }
}

/// Two element sequences carry the same identifiers (and payload bytes) at
/// the same positions; only causal status may differ.
pub open spec fn same_ids(a: Seq<Elem>, b: Seq<Elem>) -> bool {
    a.len() == b.len() && forall|i: int|
        0 <= i < a.len() ==> (#[trigger] b[i]).client == a[i].client && b[i].ctr == a[i].ctr
            && b[i].byte == a[i].byte
}

pub proof fn lemma_same_ids_has_elem(a: Seq<Elem>, b: Seq<Elem>)
    requires
        same_ids(a, b),
    ensures
        forall|cl: u64, c: int| has_elem(a, cl, c) == has_elem(b, cl, c),
        uniq_elems(a) == uniq_elems(b),
{
    assert forall|cl: u64, c: int| has_elem(a, cl, c) == has_elem(b, cl, c) by {
        if has_elem(a, cl, c) {
            let i = elem_idx(a, cl, c);
            assert(0 <= i < b.len() && b[i].client == cl && b[i].ctr == c);
            assert(has_elem(b, cl, c));
        }
        if has_elem(b, cl, c) {
            let i = choose|i: int| 0 <= i < b.len() && b[i].client == cl && b[i].ctr == c;
            assert(0 <= i < a.len() && a[i].client == cl && a[i].ctr == c);
            assert(has_elem(a, cl, c));
        }
    }
    assert(uniq_elems(a) == uniq_elems(b)) by {
        if uniq_elems(a) {
            assert forall|i: int, j: int| 0 <= i < j < b.len() implies !(b[i].client == b[j].client
                && b[i].ctr == b[j].ctr) by {
                assert(!(a[i].client == a[j].client && a[i].ctr == a[j].ctr));
            }
        }
        if uniq_elems(b) {
            assert forall|i: int, j: int| 0 <= i < j < a.len() implies !(a[i].client == a[j].client
                && a[i].ctr == a[j].ctr) by {
                assert(!(b[i].client == b[j].client && b[i].ctr == b[j].ctr));
            }
        }
    }
}

pub proof fn lemma_elem_idx_unique(es: Seq<Elem>, i: int, client: u64, c: int)
    requires
        uniq_elems(es),
        0 <= i < es.len(),
        es[i].client == client,
        es[i].ctr == c,
    ensures
        has_elem(es, client, c),
        elem_idx(es, client, c) == i,
{
    assert(has_elem(es, client, c));
    let k = elem_idx(es, client, c);
    if k != i {
        if k < i {
            assert(!(es[k].client == es[i].client && es[k].ctr == es[i].ctr));
        } else {
            assert(!(es[i].client == es[k].client && es[i].ctr == es[k].ctr));
        }
    }
}

pub proof fn lemma_has_elem_concat(a: Seq<Elem>, b: Seq<Elem>)
    ensures
        forall|cl: u64, c: int| #[trigger]
            has_elem(a + b, cl, c) == (has_elem(a, cl, c) || has_elem(b, cl, c)),
{
    assert forall|cl: u64, c: int| #[trigger]
        has_elem(a + b, cl, c) == (has_elem(a, cl, c) || has_elem(b, cl, c)) by {
        if has_elem(a, cl, c) {
            let i = elem_idx(a, cl, c);
            assert((a + b)[i].client == cl && (a + b)[i].ctr == c);
            assert(has_elem(a + b, cl, c));
        }
        if has_elem(b, cl, c) {
            let i = elem_idx(b, cl, c);
            assert((a + b)[a.len() + i].client == cl && (a + b)[a.len() + i].ctr == c);
            assert(has_elem(a + b, cl, c));
        }
        if has_elem(a + b, cl, c) {
            let i = elem_idx(a + b, cl, c);
            if i < a.len() {
                assert(a[i].client == cl && a[i].ctr == c);
            } else {
                assert(b[i - a.len()].client == cl && b[i - a.len()].ctr == c);
            }
        }
    }
}

/// How `vis_count` reacts to a single status update.
pub proof fn lemma_vis_count_update(es: Seq<Elem>, i: int, e2: Elem, n: int)
    requires
        0 <= i < es.len(),
        n <= es.len(),
    ensures
        vis_count(es.update(i, e2), n) == vis_count(es, n) + if i < n {
            (if elem_visible(e2) {
                1int
            } else {
                0int
            }) - (if elem_visible(es[i]) {
                1int
            } else {
                0int
            })
        } else {
            0int
        },
    decreases n,
{
    if n > 0 {
        lemma_vis_count_update(es, i, e2, n - 1);
    }
}

/// Deleting over a counter range changes only statuses, never identifiers,
/// order or payload.
pub proof fn lemma_del_range_same_ids(es: Seq<Elem>, client: u64, lo: int, hi: int)
    ensures
        same_ids(es, del_range(es, client, lo, hi).0),
    decreases hi - lo,
{
    if lo < hi {
        let (es1, u1) = del_step(es, client, lo);
        assert(same_ids(es, es1));
        lemma_del_range_same_ids(es1, client, lo + 1, hi);
    }
}

/// So does firing a delete operation's whole target list.
pub proof fn lemma_fire_targets_same_ids(es: Seq<Elem>, ts: Seq<IdSpan>)
    ensures
        same_ids(es, fire_targets(es, ts).0),
    decreases ts.len(),
{
    if ts.len() > 0 {
        lemma_del_range_same_ids(es, ts[0].client, ts[0].start as int, ts[0].end as int);
        lemma_fire_targets_same_ids(
            del_range(es, ts[0].client, ts[0].start as int, ts[0].end as int).0,
            ts.drop_first(),
        );
    }
}

pub proof fn lemma_expand_del_snoc(rs: Seq<(usize, usize)>, x: (usize, usize))
    ensures
        expand_del(rs.push(x)) == expand_del(rs) + del_chars(x.0 as int, x.1 as int),
    decreases rs.len(),
{
    if rs.len() == 0 {
        assert(rs.push(x).drop_first() == rs);
        assert(expand_del(rs) + del_chars(x.0 as int, x.1 as int) == del_chars(
            x.0 as int,
            x.1 as int,
        ) + expand_del(rs));
        assert(expand_del(rs.push(x)) == del_chars(rs.push(x)[0].0 as int, rs.push(x)[0].1 as int)
            + expand_del(rs.push(x).drop_first()));
    } else {
        assert(rs.push(x).drop_first() == rs.drop_first().push(x));
        lemma_expand_del_snoc(rs.drop_first(), x);
        assert((del_chars(rs[0].0 as int, rs[0].1 as int) + expand_del(rs.drop_first()))
            + del_chars(x.0 as int, x.1 as int) == del_chars(rs[0].0 as int, rs[0].1 as int) + (
        expand_del(rs.drop_first()) + del_chars(x.0 as int, x.1 as int)));
    }
}

/// No integrated operation covers any identifier `(client, c)` with
/// `lo <= c < hi`.
pub open spec fn range_fresh(ops: Seq<OpRec>, client: u64, lo: int, hi: int) -> bool {
    forall|oi: int, c: int|
        0 <= oi < ops.len() && lo <= c < hi ==> !(#[trigger] op_covers(ops[oi], client, c))
}

/// An insert of exactly this span is already integrated (duplicate delivery).
pub open spec fn has_dup_ins(ops: Seq<OpRec>, span: IdSpan) -> bool {
    exists|oi: int| 0 <= oi < ops.len() && #[trigger] ops[oi] == (OpRec::Ins { span })
}

/// A delete with this identifier header is already integrated (duplicate
/// delivery; operation identifiers are globally unique, so an identical
/// header means the identical operation).
pub open spec fn has_dup_del(ops: Seq<OpRec>, client: u64, start: int, len: int) -> bool {
    exists|oi: int|
        0 <= oi < ops.len() && !is_ins_op(#[trigger] ops[oi]) && op_client(ops[oi]) == client
            && op_start(ops[oi]) == start && op_id_len(ops[oi]) == len
}

/// Acceptable input for integrating a delete operation: a non-negative
/// header counter, well-formed non-empty targets, and an identifier range
/// that stays within counter bounds.
pub open spec fn del_input_ok(op_id: ID, ts: Seq<IdSpan>) -> bool {
    &&& op_id.counter >= 0
    &&& (forall|j: int| 0 <= j < ts.len() ==> (#[trigger] ts[j]).wf())
    &&& spans_total_len(ts) > 0
    &&& op_id.counter + spans_total_len(ts) <= i32::MAX
}

/// Every identifier listed in `ts` is present as an element of `es`.
pub open spec fn targets_integrated(es: Seq<Elem>, ts: Seq<IdSpan>) -> bool {
    forall|j: int, c: int|
        0 <= j < ts.len() && ts[j].covers(ts[j].client, c) ==> #[trigger] has_elem(
            es,
            ts[j].client,
            c,
        )
}

/// The elements a fresh insertion contributes: one per identifier, not yet
/// current, with no deletes.
pub open spec fn new_elems(span: IdSpan, content: Seq<u8>) -> Seq<Elem> {
    Seq::new(
        span.spec_len() as nat,
        |k: int|
            Elem {
                client: span.client,
                ctr: (span.start + k) as i32,
                byte: content[k],
                cur: false,
                dels: 0,
            },
    )
}

pub proof fn lemma_spans_total_split(ts: Seq<IdSpan>, j: int)
    requires
        0 <= j <= ts.len(),
    ensures
        spans_total_len(ts) == spans_total_len(ts.take(j)) + spans_total_len(ts.skip(j)),
    decreases j,
{
    if j == 0 {
        assert(ts.take(0) =~= Seq::<IdSpan>::empty());
        assert(ts.skip(0) =~= ts);
    } else {
        lemma_spans_total_split(ts, j - 1);
        // Peel the element at j - 1 from the suffix.
        let suf = ts.skip(j - 1);
        assert(suf.len() > 0);
        assert(suf[0] == ts[j - 1]);
        assert(suf.drop_first() =~= ts.skip(j));
        assert(ts.take(j) =~= ts.take(j - 1).push(ts[j - 1]));
        lemma_spans_total_snoc(ts.take(j - 1), ts[j - 1]);
    }
}

pub proof fn lemma_spans_total_snoc(ts: Seq<IdSpan>, x: IdSpan)
    ensures
        spans_total_len(ts.push(x)) == spans_total_len(ts) + x.spec_len(),
    decreases ts.len(),
{
    if ts.len() == 0 {
        assert(ts.push(x)[0] == x);
        assert(ts.push(x).drop_first() =~= Seq::<IdSpan>::empty());
        assert(spans_total_len(Seq::<IdSpan>::empty()) == 0);
        assert(spans_total_len(ts) == 0);
        assert(spans_total_len(ts.push(x)) == ts.push(x)[0].spec_len() + spans_total_len(
            ts.push(x).drop_first(),
        ));
    } else {
        assert(ts.push(x)[0] == ts[0]);
        assert(ts.push(x).drop_first() =~= ts.drop_first().push(x));
        lemma_spans_total_snoc(ts.drop_first(), x);
        assert(spans_total_len(ts.push(x)) == ts.push(x)[0].spec_len() + spans_total_len(
            ts.push(x).drop_first(),
        ));
        assert(spans_total_len(ts) == ts[0].spec_len() + spans_total_len(ts.drop_first()));
    }
}

pub proof fn lemma_spans_total_nonneg(ts: Seq<IdSpan>)
    requires
        forall|j: int| 0 <= j < ts.len() ==> (#[trigger] ts[j]).wf(),
    ensures
        spans_total_len(ts) >= 0,
    decreases ts.len(),
{
    if ts.len() > 0 {
        assert(ts[0].wf());
        lemma_spans_total_nonneg(ts.drop_first());
    }
}

/// With disjoint operation ranges the covering record is unique.
pub proof fn lemma_op_idx_unique(ops: Seq<OpRec>, oi: int, client: u64, c: int)
    requires
        ops_disjoint(ops),
        0 <= oi < ops.len(),
        op_covers(ops[oi], client, c),
    ensures
        has_op(ops, client, c),
        op_idx(ops, client, c) == oi,
{
    assert(has_op(ops, client, c));
    let k = op_idx(ops, client, c);
    if k != oi {
        if k < oi {
            assert(!(op_covers(ops[k], client, c) && op_covers(ops[oi], client, c)));
        } else {
            assert(!(op_covers(ops[oi], client, c) && op_covers(ops[k], client, c)));
        }
    }
}

/// A store mutation that changes only causal statuses preserves
/// well-formedness.
pub proof fn lemma_wf_same_ids(pre: Tracker, post: Tracker)
    requires
        pre.wf(),
        same_ids(pre.elems@, post.elems@),
        post.ops@ == pre.ops@,
        post.fired@.len() == pre.fired@.len(),
    ensures
        post.wf(),
{
    lemma_same_ids_has_elem(pre.elems@, post.elems@);
    assert forall|i: int| 0 <= i < post.elems@.len() implies has_ins_op(
        post.ops@,
        (#[trigger] post.elems@[i]).client,
        post.elems@[i].ctr as int,
    ) by {
        assert(post.elems@[i].client == pre.elems@[i].client && post.elems@[i].ctr
            == pre.elems@[i].ctr);
        assert(has_ins_op(pre.ops@, pre.elems@[i].client, pre.elems@[i].ctr as int));
    }
    assert forall|oi: int| 0 <= oi < post.ops@.len() implies del_targets_integrated(
        #[trigger] post.ops@[oi],
        post.elems@,
    ) by {
        assert(del_targets_integrated(pre.ops@[oi], pre.elems@));
        match post.ops@[oi] {
            OpRec::Ins { .. } => {},
            OpRec::Del { client, start, len, targets } => {
                assert forall|j: int, c: int|
                    0 <= j < targets@.len() && targets@[j].covers(targets@[j].client, c)
                        implies #[trigger] has_elem(post.elems@, targets@[j].client, c) by {
                    assert(has_elem(pre.elems@, targets@[j].client, c));
                }
            },
        }
    }
}

/// Integrating a fresh insertion preserves well-formedness.
pub proof fn lemma_wf_insert(pre: Tracker, post: Tracker, span: IdSpan, content: Seq<u8>, pos: int)
    requires
        pre.wf(),
        span.wf(),
        span.spec_len() > 0,
        content.len() == span.spec_len(),
        0 <= pos <= pre.elems@.len(),
        range_fresh(pre.ops@, span.client, span.start as int, span.end as int),
        post.elems@ == pre.elems@.take(pos) + new_elems(span, content) + pre.elems@.skip(pos),
        post.ops@ == pre.ops@.push(OpRec::Ins { span }),
        post.fired@ == pre.fired@.push(false),
    ensures
        post.wf(),
        forall|cl: u64, c: int| #[trigger]
            has_elem(post.elems@, cl, c) == (has_elem(pre.elems@, cl, c) || span.covers(cl, c)),
{
    let a = pre.elems@.take(pos);
    let mid = new_elems(span, content);
    let b = pre.elems@.skip(pos);
    lemma_has_elem_concat(a, mid);
    lemma_has_elem_concat(a + mid, b);
    lemma_has_elem_concat(a, b);
    assert(pre.elems@ =~= a + b);
    assert forall|cl: u64, c: int| #[trigger] has_elem(mid, cl, c) == span.covers(cl, c) by {
        if has_elem(mid, cl, c) {
            let k = elem_idx(mid, cl, c);
            assert(mid[k].client == cl && mid[k].ctr == c);
        }
        if span.covers(cl, c) {
            let k = c - span.start;
            assert(mid[k].client == cl && mid[k].ctr == c);
            assert(has_elem(mid, cl, c));
        }
    }
    // Fresh identifiers are absent from the old elements.
    assert forall|cl: u64, c: int| span.covers(cl, c) implies !has_elem(pre.elems@, cl, c) by {
        if has_elem(pre.elems@, cl, c) {
            let i = elem_idx(pre.elems@, cl, c);
            assert(has_ins_op(pre.ops@, cl, c));
            let oi = choose|oi: int|
                0 <= oi < pre.ops@.len() && is_ins_op(pre.ops@[oi]) && #[trigger] op_covers(
                    pre.ops@[oi],
                    cl,
                    c,
                );
            assert(!op_covers(pre.ops@[oi], span.client, c));
        }
    }
    // Uniqueness of the combined element sequence.
    assert forall|i: int, j: int| 0 <= i < j < post.elems@.len() implies !(
    (#[trigger] post.elems@[i]).client == (#[trigger] post.elems@[j]).client && post.elems@[i].ctr
        == post.elems@[j].ctr) by {
        let n1 = a.len();
        let n2 = n1 + mid.len();
        let cl = post.elems@[i].client;
        let c = post.elems@[i].ctr as int;
        if post.elems@[i].client == post.elems@[j].client && post.elems@[i].ctr
            == post.elems@[j].ctr {
            if i < n1 || i >= n2 {
                // i is an old element
                let ip = if i < n1 {
                    i
                } else {
                    i - mid.len()
                };
                assert(post.elems@[i] == pre.elems@[ip]);
                lemma_elem_idx_unique(pre.elems@, ip, cl, c);
                if j < n1 || j >= n2 {
                    let jp = if j < n1 {
                        j
                    } else {
                        j - mid.len()
                    };
                    assert(post.elems@[j] == pre.elems@[jp]);
                    assert(ip < jp);
                    assert(false);
                } else {
                    // j is new: its identifier is covered by span, but the old
                    // element carries the same identifier.
                    assert(post.elems@[j] == mid[j - n1]);
                    assert(span.covers(cl, c));
                    assert(has_elem(pre.elems@, cl, c));
                    assert(false);
                }
            } else {
                assert(post.elems@[i] == mid[i - n1]);
                if j < n1 || j >= n2 {
                    let jp = if j < n1 {
                        j
                    } else {
                        j - mid.len()
                    };
                    assert(post.elems@[j] == pre.elems@[jp]);
                    lemma_elem_idx_unique(pre.elems@, jp, cl, c);
                    assert(span.covers(cl, c));
                    assert(false);
                } else {
                    assert(post.elems@[j] == mid[j - n1]);
                    assert(mid[i - n1].ctr != mid[j - n1].ctr);
                    assert(false);
                }
            }
        }
    }
    let newop = OpRec::Ins { span };
    assert(op_wf(newop));
    assert forall|oi: int, oj: int, cl: u64, c: int| 0 <= oi < oj < post.ops@.len() implies !(
    #[trigger] op_covers(post.ops@[oi], cl, c) && #[trigger] op_covers(post.ops@[oj], cl, c)) by {
        if op_covers(post.ops@[oi], cl, c) && op_covers(post.ops@[oj], cl, c) {
            if oj == pre.ops@.len() {
                assert(op_covers(newop, cl, c) ==> span.covers(cl, c));
                assert(!op_covers(pre.ops@[oi], span.client, c));
            } else {
                assert(op_covers(pre.ops@[oi], cl, c) && op_covers(pre.ops@[oj], cl, c));
            }
        }
    }
    assert forall|i: int| 0 <= i < post.elems@.len() implies has_ins_op(
        post.ops@,
        (#[trigger] post.elems@[i]).client,
        post.elems@[i].ctr as int,
    ) by {
        let cl = post.elems@[i].client;
        let c = post.elems@[i].ctr as int;
        let n1 = a.len();
        let n2 = n1 + mid.len();
        if i < n1 || i >= n2 {
            let ip = if i < n1 {
                i
            } else {
                i - mid.len()
            };
            assert(post.elems@[i] == pre.elems@[ip]);
            assert(has_ins_op(pre.ops@, cl, c));
            let oi = choose|oi: int|
                0 <= oi < pre.ops@.len() && is_ins_op(pre.ops@[oi]) && #[trigger] op_covers(
                    pre.ops@[oi],
                    cl,
                    c,
                );
            assert(is_ins_op(post.ops@[oi]) && op_covers(post.ops@[oi], cl, c));
            assert(has_ins_op(post.ops@, cl, c));
        } else {
            assert(post.elems@[i] == mid[i - n1]);
            assert(span.covers(cl, c));
            let oi = pre.ops@.len() as int;
            assert(is_ins_op(post.ops@[oi]) && op_covers(post.ops@[oi], cl, c));
            assert(has_ins_op(post.ops@, cl, c));
        }
    }
    assert forall|oi: int, c: int|
        0 <= oi < post.ops@.len() && is_ins_op(post.ops@[oi]) && #[trigger] op_covers(
            post.ops@[oi],
            op_client(post.ops@[oi]),
            c,
        ) implies has_elem(post.elems@, op_client(post.ops@[oi]), c) by {
        if oi < pre.ops@.len() {
            assert(op_covers(pre.ops@[oi], op_client(pre.ops@[oi]), c));
            assert(has_elem(pre.elems@, op_client(pre.ops@[oi]), c));
        } else {
            assert(span.covers(span.client, c));
            assert(has_elem(mid, span.client, c));
        }
    }
    assert forall|oi: int| 0 <= oi < post.ops@.len() implies del_targets_integrated(
        #[trigger] post.ops@[oi],
        post.elems@,
    ) by {
        if oi < pre.ops@.len() {
            assert(del_targets_integrated(pre.ops@[oi], pre.elems@));
            match post.ops@[oi] {
                OpRec::Ins { .. } => {},
                OpRec::Del { client, start, len, targets } => {
                    assert forall|j: int, c: int|
                        0 <= j < targets@.len() && targets@[j].covers(targets@[j].client, c)
                            implies #[trigger] has_elem(post.elems@, targets@[j].client, c) by {
                        assert(has_elem(pre.elems@, targets@[j].client, c));
                    }
                },
            }
        }
    }
}

/// Registering a fresh delete operation preserves well-formedness.
pub proof fn lemma_wf_push_del(pre: Tracker, post: Tracker, newop: OpRec)
    requires
        pre.wf(),
        op_wf(newop),
        !is_ins_op(newop),
        del_targets_integrated(newop, pre.elems@),
        range_fresh(pre.ops@, op_client(newop), op_start(newop), op_start(newop) + op_id_len(newop)),
        post.elems@ == pre.elems@,
        post.ops@ == pre.ops@.push(newop),
        post.fired@ == pre.fired@.push(false),
    ensures
        post.wf(),
{
    assert forall|oi: int, oj: int, cl: u64, c: int| 0 <= oi < oj < post.ops@.len() implies !(
    #[trigger] op_covers(post.ops@[oi], cl, c) && #[trigger] op_covers(post.ops@[oj], cl, c)) by {
        if op_covers(post.ops@[oi], cl, c) && op_covers(post.ops@[oj], cl, c) {
            if oj == pre.ops@.len() {
                assert(cl == op_client(newop) && op_start(newop) <= c < op_start(newop)
                    + op_id_len(newop));
                assert(!op_covers(pre.ops@[oi], op_client(newop), c));
            } else {
                assert(op_covers(pre.ops@[oi], cl, c) && op_covers(pre.ops@[oj], cl, c));
            }
        }
    }
    assert forall|i: int| 0 <= i < post.elems@.len() implies has_ins_op(
        post.ops@,
        (#[trigger] post.elems@[i]).client,
        post.elems@[i].ctr as int,
    ) by {
        let cl = post.elems@[i].client;
        let c = post.elems@[i].ctr as int;
        assert(has_ins_op(pre.ops@, cl, c));
        let oi = choose|oi: int|
            0 <= oi < pre.ops@.len() && is_ins_op(pre.ops@[oi]) && #[trigger] op_covers(
                pre.ops@[oi],
                cl,
                c,
            );
        assert(is_ins_op(post.ops@[oi]) && op_covers(post.ops@[oi], cl, c));
        assert(has_ins_op(post.ops@, cl, c));
    }
    assert forall|oi: int, c: int|
        0 <= oi < post.ops@.len() && is_ins_op(post.ops@[oi]) && #[trigger] op_covers(
            post.ops@[oi],
            op_client(post.ops@[oi]),
            c,
        ) implies has_elem(post.elems@, op_client(post.ops@[oi]), c) by {
        assert(oi < pre.ops@.len());
        assert(op_covers(pre.ops@[oi], op_client(pre.ops@[oi]), c));
    }
    assert forall|oi: int| 0 <= oi < post.ops@.len() implies del_targets_integrated(
        #[trigger] post.ops@[oi],
        post.elems@,
    ) by {
        if oi < pre.ops@.len() {
            assert(del_targets_integrated(pre.ops@[oi], pre.elems@));
        } else {
            assert(post.ops@[oi] == newop);
        }
    }
}

impl Tracker {
    /// Well-formedness: every record is well formed, identifier ranges are
    /// disjoint, and the elements' identifiers partition exactly the set of
    /// integrated insert identifiers (the span coverage invariant). Delete
    /// targets always reference integrated content.
    pub open spec fn wf(self) -> bool {
        &&& uniq_elems(self.elems@)
        &&& self.fired@.len() == self.ops@.len()
        &&& (forall|oi: int| 0 <= oi < self.ops@.len() ==> op_wf(#[trigger] self.ops@[oi]))
        &&& ops_disjoint(self.ops@)
        &&& (forall|i: int|
            0 <= i < self.elems@.len() ==> has_ins_op(
                self.ops@,
                (#[trigger] self.elems@[i]).client,
                self.elems@[i].ctr as int,
            ))
        &&& (forall|oi: int, c: int|
            0 <= oi < self.ops@.len() && is_ins_op(self.ops@[oi]) && #[trigger] op_covers(
                self.ops@[oi],
                op_client(self.ops@[oi]),
                c,
            ) ==> has_elem(self.elems@, op_client(self.ops@[oi]), c))
        &&& (forall|oi: int|
            0 <= oi < self.ops@.len() ==> del_targets_integrated(
                #[trigger] self.ops@[oi],
                self.elems@,
            ))
    }

    pub fn new() -> (r: Tracker)
        ensures
            r.wf(),
            r.elems@.len() == 0,
            r.ops@.len() == 0,
    {
        Tracker { elems: Vec::new(), ops: Vec::new(), fired: Vec::new() }
    }

    /// Index of the element carrying `(client, c)`, if any.
    pub fn find_elem(&self, client: u64, c: i32) -> (r: Option<usize>)
        ensures
            match r {
                Some(i) => i < self.elems@.len() && self.elems@[i as int].client == client
                    && self.elems@[i as int].ctr == c && has_elem(self.elems@, client, c as int),
                None => !has_elem(self.elems@, client, c as int),
            },
    {
        let mut i: usize = 0;
        while i < self.elems.len()
            invariant
                i <= self.elems@.len(),
                forall|j: int|
                    0 <= j < i ==> !((#[trigger] self.elems@[j]).client == client
                        && self.elems@[j].ctr == c),
            decreases self.elems@.len() - i,
        {
            let e = self.elems[i];
            if e.client == client && e.ctr == c {
                return Some(i);
            }
            i += 1;
        }
        None
    }

    /// Number of visible elements before position `upto`.
    pub fn visible_before(&self, upto: usize) -> (r: usize)
        requires
            upto <= self.elems@.len(),
        ensures
            r == vis_count(self.elems@, upto as int),
            r <= upto,
    {
        let mut cnt: usize = 0;
        let mut i: usize = 0;
        while i < upto
            invariant
                i <= upto <= self.elems@.len(),
                cnt == vis_count(self.elems@, i as int),
                cnt <= i,
            decreases upto - i,
        {
            let e = self.elems[i];
            if e.cur && e.dels == 0 {
                cnt += 1;
            }
            i += 1;
        }
        cnt
    }

    /// Applies a causal status transition to the run of `len` elements at
    /// `idx`, and returns the signed change in visible length this causes:
    /// positive for content becoming visible, negative for becoming
    /// invisible, zero when the status changed without a visibility change.
    pub fn update_causal_status(&mut self, idx: usize, len: usize, change: StatusChange) -> (delta:
        i64)
        requires
            old(self).wf(),
            idx + len <= old(self).elems@.len(),
            len <= 0x7fff_ffff_ffff_ffff,
        ensures
            final(self).wf(),
            final(self).ops@ == old(self).ops@,
            final(self).fired@ == old(self).fired@,
            final(self).elems@.len() == old(self).elems@.len(),
            forall|i: int|
                0 <= i < old(self).elems@.len() && !(idx <= i < idx + len)
                    ==> final(self).elems@[i] == old(self).elems@[i],
            forall|i: int|
                idx <= i < idx + len ==> final(self).elems@[i] == apply_status(
                    old(self).elems@[i],
                    change,
                ),
            same_ids(old(self).elems@, final(self).elems@),
            delta == vis_count(final(self).elems@, old(self).elems@.len() as int) - vis_count(
                old(self).elems@,
                old(self).elems@.len() as int,
            ),
            -(len as int) <= delta <= len as int,
    {
        let ghost orig = self.elems@;
        let ghost oops = self.ops@;
        let ghost ofired = self.fired@;
        let n = self.elems.len();
        let mut j: usize = 0;
        let mut delta: i64 = 0;
        while j < len
            invariant
                j <= len,
                idx + len <= n,
                n == self.elems@.len(),
                len <= 0x7fff_ffff_ffff_ffff,
                self.elems@.len() == orig.len(),
                self.ops@ == oops,
                self.fired@ == ofired,
                forall|i: int|
                    0 <= i < orig.len() && !(idx <= i < idx + j) ==> self.elems@[i] == orig[i],
                forall|i: int|
                    idx <= i < idx + j ==> self.elems@[i] == apply_status(orig[i], change),
                delta == vis_count(self.elems@, orig.len() as int) - vis_count(
                    orig,
                    orig.len() as int,
                ),
                -(j as int) <= delta <= j as int,
            decreases len - j,
        {
            let e = self.elems[idx + j];
            let ne = match change {
                StatusChange::SetAsCurrent => Elem { cur: true, ..e },
                StatusChange::Delete => Elem {
                    dels: if e.dels == u64::MAX {
                        e.dels
                    } else {
                        e.dels + 1
                    },
                    ..e
                },
                StatusChange::UndoDelete => Elem {
                    dels: if e.dels > 0 {
                        e.dels - 1
                    } else {
                        0
                    },
                    ..e
                },
            };
            let vb = e.cur && e.dels == 0;
            let va = ne.cur && ne.dels == 0;
            proof {
                assert(ne == apply_status(e, change));
                lemma_vis_count_update(self.elems@, idx + j, ne, orig.len() as int);
            }
            self.elems.set(idx + j, ne);
            if va && !vb {
                delta += 1;
            } else if vb && !va {
                delta -= 1;
            }
            j += 1;
        }
        proof {
            assert(same_ids(orig, self.elems@));
            lemma_wf_same_ids(*old(self), *self);
        }
        delta
    }

    /// Integrates a freshly delivered insertion: one new element per
    /// identifier of `span`, placed before position `pos` of the existing
    /// element sequence (the position is supplied by the container's merge
    /// policy), not yet current and carrying no deletes. Re-delivery of an
    /// already integrated insertion is a no-op. Fails with `Overlap` when the
    /// span collides with a different integrated operation, and with
    /// `OutOfRange` on malformed input.
    pub fn integrate_insert(&mut self, span: IdSpan, content: &Vec<u8>, pos: usize) -> (r: Result<
        (),
        StoreError,
    >)
        requires
            old(self).wf(),
        ensures
            final(self).wf(),
            match r {
                Ok(_) => {
                    &&& span.wf() && span.spec_len() > 0 && content@.len() == span.spec_len()
                        && pos <= old(self).elems@.len()
                    &&& if has_dup_ins(old(self).ops@, span) {
                        final(self).elems@ == old(self).elems@ && final(self).ops@ == old(
                            self,
                        ).ops@ && final(self).fired@ == old(self).fired@
                    } else {
                        &&& range_fresh(old(self).ops@, span.client, span.start as int, span.end as int)
                        &&& final(self).elems@ == old(self).elems@.take(pos as int) + new_elems(
                            span,
                            content@,
                        ) + old(self).elems@.skip(pos as int)
                        &&& final(self).ops@ == old(self).ops@.push(OpRec::Ins { span })
                        &&& final(self).fired@ == old(self).fired@.push(false)
                    }
                },
                Err(StoreError::OutOfRange) => {
                    &&& !(span.wf() && span.spec_len() > 0 && content@.len() == span.spec_len()
                        && pos <= old(self).elems@.len())
                    &&& final(self).elems@ == old(self).elems@ && final(self).ops@ == old(
                        self,
                    ).ops@ && final(self).fired@ == old(self).fired@
                },
                Err(StoreError::Overlap) => {
                    &&& !range_fresh(old(self).ops@, span.client, span.start as int, span.end as int)
                    &&& !has_dup_ins(old(self).ops@, span)
                    &&& final(self).elems@ == old(self).elems@ && final(self).ops@ == old(
                        self,
                    ).ops@ && final(self).fired@ == old(self).fired@
                },
                Err(_) => false,
            },
    {
        if !(0 <= span.start && span.start < span.end) || content.len() != span.len() || pos
            > self.elems.len() {
            return Err(StoreError::OutOfRange);
        }
        // Scan the operation log for a collision with the new span.
        let mut oi: usize = 0;
        while oi < self.ops.len()
            invariant
                oi <= self.ops@.len(),
                self.wf(),
                self.elems@ == old(self).elems@,
                self.ops@ == old(self).ops@,
                self.fired@ == old(self).fired@,
                span.wf(),
                span.spec_len() > 0,
                content@.len() == span.spec_len(),
                pos <= self.elems@.len(),
                forall|k: int, c: int|
                    0 <= k < oi && span.start <= c < span.end ==> !(#[trigger] op_covers(
                        self.ops@[k],
                        span.client,
                        c,
                    )),
            decreases self.ops@.len() - oi,
        {
            let hit: bool;
            let mut dup: bool = false;
            match &self.ops[oi] {
                OpRec::Ins { span: s } => {
                    hit = s.client == span.client && s.start < span.end && span.start < s.end;
                    if hit && s.start == span.start && s.end == span.end {
                        dup = true;
                    }
                },
                OpRec::Del { client, start, len, .. } => {
                    proof {
                        assert(op_wf(self.ops@[oi as int]));
                    }
                    hit = *client == span.client && *start < span.end && (span.start as i64) < (
                    *start as i64) + (*len as i64);
                },
            }
            if dup {
                proof {
                    assert(self.ops@[oi as int] == (OpRec::Ins { span }));
                    assert(has_dup_ins(self.ops@, span));
                }
                return Ok(());
            }
            if hit {
                proof {
                    let o = self.ops@[oi as int];
                    assert(op_wf(o));
                    let lo = if op_start(o) >= span.start as int {
                        op_start(o)
                    } else {
                        span.start as int
                    };
                    assert(op_covers(o, span.client, lo));
                    assert(span.start <= lo < span.end);
                    assert(!range_fresh(self.ops@, span.client, span.start as int, span.end as int))
                        by {
                        if range_fresh(self.ops@, span.client, span.start as int, span.end as int) {
                            assert(!op_covers(self.ops@[oi as int], span.client, lo));
                        }
                    }
                    // A duplicate insert would cover the same identifiers as
                    // this colliding record, contradicting disjointness.
                    if has_dup_ins(self.ops@, span) {
                        let od = choose|od: int|
                            0 <= od < self.ops@.len() && #[trigger] self.ops@[od] == (OpRec::Ins {
                                span,
                            });
                        assert(op_covers(self.ops@[od], span.client, lo));
                        if od < oi as int {
                            assert(false);
                        } else if od > oi as int {
                            assert(false);
                        } else {
                            assert(o == (OpRec::Ins { span }));
                            assert(false);
                        }
                    }
                }
                return Err(StoreError::Overlap);
            }
            oi += 1;
        }
        proof {
            assert(range_fresh(self.ops@, span.client, span.start as int, span.end as int));
            if has_dup_ins(self.ops@, span) {
                let od = choose|od: int|
                    0 <= od < self.ops@.len() && #[trigger] self.ops@[od] == (OpRec::Ins { span });
                assert(op_covers(self.ops@[od], span.client, span.start as int));
                assert(false);
            }
        }
        let ghost orig = self.elems@;
        let n = content.len();
        let mut j: usize = 0;
        while j < n
            invariant
                j <= n,
                n == content@.len(),
                span.wf(),
                n == span.spec_len(),
                pos <= orig.len(),
                pos + j <= self.elems@.len(),
                self.ops@ == old(self).ops@,
                self.fired@ == old(self).fired@,
                self.elems@ == orig.take(pos as int) + new_elems(span, content@).take(j as int)
                    + orig.skip(pos as int),
            decreases n - j,
        {
            let e = Elem {
                client: span.client,
                ctr: span.start + (j as i32),
                byte: content[j],
                cur: false,
                dels: 0,
            };
            let ghost before = self.elems@;
            let cur_len = self.elems.len();
            assert(pos + j <= cur_len);
            self.elems.insert(pos + j, e);
            proof {
                assert(new_elems(span, content@).take(j + 1) =~= new_elems(
                    span,
                    content@,
                ).take(j as int).push(e));
                assert(self.elems@ =~= orig.take(pos as int) + new_elems(span, content@).take(
                    j + 1,
                ) + orig.skip(pos as int));
            }
            j += 1;
        }
        self.ops.push(OpRec::Ins { span });
        self.fired.push(false);
        proof {
            assert(new_elems(span, content@).take(n as int) =~= new_elems(span, content@));
            lemma_wf_insert(*old(self), *self, span, content@, pos as int);
        }
        Ok(())
    }

    /// Integrates a freshly delivered delete operation headed by `op_id`,
    /// whose targets list the content identifiers it removes. The record is
    /// logged; its targets are applied to the content by the effect pass that
    /// first reaches the operation's identifiers. Re-delivery of an already
    /// integrated delete is a no-op. Fails with `UnknownId` when a target was
    /// never integrated (the caller must integrate causal parents first),
    /// `Overlap` on a collision with a different operation, and `OutOfRange`
    /// on malformed input.
    pub fn integrate_delete(&mut self, op_id: ID, targets: Vec<IdSpan>) -> (r: Result<
        (),
        StoreError,
    >)
        requires
            old(self).wf(),
        ensures
            final(self).wf(),
            final(self).elems@ == old(self).elems@,
            match r {
                Ok(_) => {
                    &&& del_input_ok(op_id, targets@)
                    &&& targets_integrated(old(self).elems@, targets@)
                    &&& if has_dup_del(
                        old(self).ops@,
                        op_id.client,
                        op_id.counter as int,
                        spans_total_len(targets@),
                    ) {
                        final(self).ops@ == old(self).ops@ && final(self).fired@ == old(
                            self,
                        ).fired@
                    } else {
                        &&& range_fresh(
                            old(self).ops@,
                            op_id.client,
                            op_id.counter as int,
                            op_id.counter + spans_total_len(targets@),
                        )
                        &&& final(self).ops@ == old(self).ops@.push(
                            OpRec::Del {
                                client: op_id.client,
                                start: op_id.counter,
                                len: spans_total_len(targets@) as usize,
                                targets,
                            },
                        )
                        &&& final(self).fired@ == old(self).fired@.push(false)
                    }
                },
                Err(StoreError::OutOfRange) => !del_input_ok(op_id, targets@) && final(self).ops@
                    == old(self).ops@ && final(self).fired@ == old(self).fired@,
                Err(StoreError::UnknownId) => del_input_ok(op_id, targets@)
                    && !targets_integrated(old(self).elems@, targets@) && final(self).ops@ == old(
                    self,
                ).ops@ && final(self).fired@ == old(self).fired@,
                Err(StoreError::Overlap) => {
                    &&& !range_fresh(
                        old(self).ops@,
                        op_id.client,
                        op_id.counter as int,
                        op_id.counter + spans_total_len(targets@),
                    )
                    &&& !has_dup_del(
                        old(self).ops@,
                        op_id.client,
                        op_id.counter as int,
                        spans_total_len(targets@),
                    )
                    &&& final(self).ops@ == old(self).ops@ && final(self).fired@ == old(
                        self,
                    ).fired@
                },
            },
    {
        if op_id.counter < 0 {
            return Err(StoreError::OutOfRange);
        }
        // Every target span must be well formed.
        let mut j: usize = 0;
        while j < targets.len()
            invariant
                j <= targets@.len(),
                self.wf(),
                self.elems@ == old(self).elems@,
                self.ops@ == old(self).ops@,
                self.fired@ == old(self).fired@,
                forall|k: int| 0 <= k < j ==> (#[trigger] targets@[k]).wf(),
            decreases targets@.len() - j,
        {
            let t = targets[j];
            if !(0 <= t.start && t.start <= t.end) {
                return Err(StoreError::OutOfRange);
            }
            j += 1;
        }
        // Total length of the deleted content, which is also the number of
        // identifiers this operation occupies.
        let imax: usize = 0x7fff_ffff;
        let mut total: usize = 0;
        let mut j: usize = 0;
        while j < targets.len()
            invariant
                j <= targets@.len(),
                self.wf(),
                self.elems@ == old(self).elems@,
                self.ops@ == old(self).ops@,
                self.fired@ == old(self).fired@,
                forall|k: int| 0 <= k < targets@.len() ==> (#[trigger] targets@[k]).wf(),
                total == spans_total_len(targets@.take(j as int)),
                total <= imax,
                imax == i32::MAX,
            decreases targets@.len() - j,
        {
            let t = targets[j];
            let tl = t.len();
            proof {
                lemma_spans_total_snoc(targets@.take(j as int), targets@[j as int]);
                assert(targets@.take(j + 1) =~= targets@.take(j as int).push(targets@[j as int]));
            }
            if tl > imax - total {
                proof {
                    lemma_spans_total_split(targets@, j + 1);
                    lemma_spans_total_nonneg(targets@.skip(j + 1));
                }
                return Err(StoreError::OutOfRange);
            }
            total += tl;
            j += 1;
        }
        proof {
            assert(targets@.take(targets@.len() as int) =~= targets@);
        }
        if total == 0 {
            return Err(StoreError::OutOfRange);
        }
        if total > imax - (op_id.counter as usize) {
            return Err(StoreError::OutOfRange);
        }
        // Causal-order check: every targeted identifier must be integrated.
        let mut j: usize = 0;
        while j < targets.len()
            invariant
                j <= targets@.len(),
                self.wf(),
                self.elems@ == old(self).elems@,
                self.ops@ == old(self).ops@,
                self.fired@ == old(self).fired@,
                forall|k: int| 0 <= k < targets@.len() ==> (#[trigger] targets@[k]).wf(),
                del_input_ok(op_id, targets@),
                forall|k: int, c: int|
                    0 <= k < j && targets@[k].covers(targets@[k].client, c)
                        ==> #[trigger] has_elem(self.elems@, targets@[k].client, c),
            decreases targets@.len() - j,
        {
            let t = targets[j];
            let mut c: i32 = t.start;
            while c < t.end
                invariant
                    t == targets@[j as int],
                    j < targets@.len(),
                    t.start <= c <= t.end,
                    t.wf(),
                    self.wf(),
                    self.elems@ == old(self).elems@,
                    self.ops@ == old(self).ops@,
                    self.fired@ == old(self).fired@,
                    del_input_ok(op_id, targets@),
                    forall|c2: int| t.start <= c2 < c ==> has_elem(self.elems@, t.client, c2),
                decreases t.end - c,
            {
                if self.find_elem(t.client, c).is_none() {
                    proof {
                        if targets_integrated(self.elems@, targets@) {
                            assert(targets@[j as int].covers(t.client, c as int));
                            assert(has_elem(self.elems@, t.client, c as int));
                        }
                    }
                    return Err(StoreError::UnknownId);
                }
                c = c + 1;
            }
            j += 1;
        }
        // Scan the operation log for a collision with the new range.
        let lo: i32 = op_id.counter;
        let hi: i32 = op_id.counter + (total as i32);
        let mut oi: usize = 0;
        while oi < self.ops.len()
            invariant
                oi <= self.ops@.len(),
                self.wf(),
                self.elems@ == old(self).elems@,
                self.ops@ == old(self).ops@,
                self.fired@ == old(self).fired@,
                0 <= lo < hi,
                lo == op_id.counter,
                hi == lo + total,
                total == spans_total_len(targets@),
                del_input_ok(op_id, targets@),
                targets_integrated(self.elems@, targets@),
                forall|k: int, c: int|
                    0 <= k < oi && lo <= c < hi ==> !(#[trigger] op_covers(
                        self.ops@[k],
                        op_id.client,
                        c,
                    )),
            decreases self.ops@.len() - oi,
        {
            let hit: bool;
            let mut dup: bool = false;
            match &self.ops[oi] {
                OpRec::Ins { span: s } => {
                    proof {
                        assert(op_wf(self.ops@[oi as int]));
                    }
                    hit = s.client == op_id.client && s.start < hi && lo < s.end;
                },
                OpRec::Del { client, start, len, .. } => {
                    proof {
                        assert(op_wf(self.ops@[oi as int]));
                    }
                    hit = *client == op_id.client && *start < hi && (lo as i64) < (*start as i64)
                        + (*len as i64);
                    if hit && *start == lo && *len == total {
                        dup = true;
                    }
                },
            }
            if dup {
                proof {
                    let o = self.ops@[oi as int];
                    assert(!is_ins_op(o) && op_client(o) == op_id.client && op_start(o)
                        == op_id.counter as int && op_id_len(o) == spans_total_len(targets@));
                    assert(has_dup_del(
                        self.ops@,
                        op_id.client,
                        op_id.counter as int,
                        spans_total_len(targets@),
                    ));
                }
                return Ok(());
            }
            if hit {
                proof {
                    let o = self.ops@[oi as int];
                    assert(op_wf(o));
                    let w = if op_start(o) >= lo as int {
                        op_start(o)
                    } else {
                        lo as int
                    };
                    assert(op_covers(o, op_id.client, w));
                    assert(lo <= w < hi);
                    assert(!range_fresh(self.ops@, op_id.client, lo as int, hi as int)) by {
                        if range_fresh(self.ops@, op_id.client, lo as int, hi as int) {
                            assert(!op_covers(self.ops@[oi as int], op_id.client, w));
                        }
                    }
                    // A duplicate delete would cover the same identifiers as
                    // this colliding record, contradicting disjointness.
                    if has_dup_del(self.ops@, op_id.client, lo as int, total as int) {
                        let od = choose|od: int|
                            0 <= od < self.ops@.len() && !is_ins_op(#[trigger] self.ops@[od])
                                && op_client(self.ops@[od]) == op_id.client && op_start(
                                self.ops@[od],
                            ) == lo as int && op_id_len(self.ops@[od]) == total as int;
                        assert(op_covers(self.ops@[od], op_id.client, w));
                        if od < oi as int {
                            assert(false);
                        } else if od > oi as int {
                            assert(false);
                        } else {
                            assert(!is_ins_op(o) && op_start(o) == lo as int && op_id_len(o)
                                == total as int);
                            assert(dup);
                            assert(false);
                        }
                    }
                }
                return Err(StoreError::Overlap);
            }
            oi += 1;
        }
        proof {
            assert(range_fresh(self.ops@, op_id.client, lo as int, hi as int));
            if has_dup_del(self.ops@, op_id.client, lo as int, total as int) {
                let od = choose|od: int|
                    0 <= od < self.ops@.len() && !is_ins_op(#[trigger] self.ops@[od]) && op_client(
                        self.ops@[od],
                    ) == op_id.client && op_start(self.ops@[od]) == lo as int && op_id_len(
                        self.ops@[od],
                    ) == total as int;
                assert(op_covers(self.ops@[od], op_id.client, lo as int));
                assert(false);
            }
        }
        let rec = OpRec::Del { client: op_id.client, start: op_id.counter, len: total, targets };
        let ghost gop = rec;
        proof {
            assert(op_wf(gop));
            assert(del_targets_integrated(gop, self.elems@));
        }
        self.ops.push(rec);
        self.fired.push(false);
        proof {
            lemma_wf_push_del(*old(self), *self, gop);
        }
        Ok(())
    }

    /// Looks up every element of `target` (there may be several physical
    /// runs if earlier operations split it), marks each as deleted by one
    /// more concurrent delete, and returns, for each region newly becoming
    /// invisible, its visible position at the moment of its deletion and its
    /// length. Content already invisible stays tombstoned and yields no
    /// region. Fails with `UnknownId` when the target references an
    /// identifier never integrated.
    pub fn mark_deleted(&mut self, target: IdSpan) -> (r: Result<Vec<(usize, usize)>, StoreError>)
        requires
            old(self).wf(),
        ensures
            final(self).wf(),
            final(self).ops@ == old(self).ops@,
            final(self).fired@ == old(self).fired@,
            match r {
                Ok(regions) => {
                    &&& target.wf() && target.spec_len() > 0
                    &&& (forall|c: int|
                        target.start <= c < target.end ==> has_elem(
                            old(self).elems@,
                            target.client,
                            c,
                        ))
                    &&& final(self).elems@ == del_range(
                        old(self).elems@,
                        target.client,
                        target.start as int,
                        target.end as int,
                    ).0
                    &&& expand_del(regions@) == del_range(
                        old(self).elems@,
                        target.client,
                        target.start as int,
                        target.end as int,
                    ).1
                    &&& regions_canonical(regions@)
                },
                Err(StoreError::OutOfRange) => !(target.wf() && target.spec_len() > 0)
                    && final(self).elems@ == old(self).elems@,
                Err(StoreError::UnknownId) => target.wf() && target.spec_len() > 0 && !(forall|
                    c: int,
                |
                    target.start <= c < target.end ==> has_elem(
                        old(self).elems@,
                        target.client,
                        c,
                    )) && final(self).elems@ == old(self).elems@,
                Err(_) => false,
            },
    {
        if !(0 <= target.start && target.start < target.end) {
            return Err(StoreError::OutOfRange);
        }
        // Causal-order check: every targeted identifier must be integrated.
        let mut c: i32 = target.start;
        while c < target.end
            invariant
                target.start <= c <= target.end,
                target.wf(),
                self.wf(),
                self.elems@ == old(self).elems@,
                self.ops@ == old(self).ops@,
                self.fired@ == old(self).fired@,
                forall|c2: int|
                    target.start <= c2 < c ==> has_elem(self.elems@, target.client, c2),
            decreases target.end - c,
        {
            if self.find_elem(target.client, c).is_none() {
                return Err(StoreError::UnknownId);
            }
            c = c + 1;
        }
        let ghost orig = self.elems@;
        let ghost oops = self.ops@;
        let ghost ofired = self.fired@;
        let ghost total = del_range(orig, target.client, target.start as int, target.end as int);
        let mut regions: Vec<(usize, usize)> = Vec::new();
        let mut pending_pos: usize = 0;
        let mut pending_len: usize = 0;
        let mut c: i32 = target.start;
        while c < target.end
            invariant
                target.start <= c <= target.end,
                target.wf(),
                self.ops@ == oops,
                self.fired@ == ofired,
                same_ids(orig, self.elems@),
                forall|c2: int| target.start <= c2 < target.end ==> has_elem(orig, target.client, c2),
                uniq_elems(self.elems@),
                del_range(self.elems@, target.client, c as int, target.end as int).0 == total.0,
                total.1 == expand_del(regions@) + del_chars(
                    pending_pos as int,
                    pending_len as int,
                ) + del_range(self.elems@, target.client, c as int, target.end as int).1,
                pending_len <= c - target.start,
                regions_canonical(regions@),
                pending_len == 0 ==> regions@.len() == 0,
                pending_len > 0 && regions@.len() > 0 ==> regions@.last().0 != pending_pos,
            decreases target.end - c,
        {
            proof {
                lemma_same_ids_has_elem(orig, self.elems@);
            }
            let i = match self.find_elem(target.client, c) {
                Some(i) => i,
                None => {
                    proof {
                        assert(false);
                    }
                    return Err(StoreError::UnknownId);
                },
            };
            let e = self.elems[i];
            let ne = Elem {
                dels: if e.dels == u64::MAX {
                    e.dels
                } else {
                    e.dels + 1
                },
                ..e
            };
            let vb = e.cur && e.dels == 0;
            let ghost es_before = self.elems@;
            let pos = self.visible_before(i);
            proof {
                lemma_elem_idx_unique(es_before, i as int, target.client, c as int);
                assert(del_step(es_before, target.client, c as int).0 == es_before.update(
                    i as int,
                    ne,
                ));
            }
            self.elems.set(i, ne);
            if vb {
                proof {
                    assert(del_step(es_before, target.client, c as int).1 == seq![
                        EffectStep::DelChar { pos: pos as int },
                    ]);
                }
                if pending_len > 0 && pending_pos == pos {
                    proof {
                        assert(del_chars(pending_pos as int, pending_len + 1) =~= del_chars(
                            pending_pos as int,
                            pending_len as int,
                        ) + seq![EffectStep::DelChar { pos: pos as int }]);
                    }
                    pending_len = pending_len + 1;
                } else if pending_len > 0 {
                    proof {
                        lemma_expand_del_snoc(regions@, (pending_pos, pending_len));
                        assert(del_chars(pos as int, 1int) =~= seq![
                            EffectStep::DelChar { pos: pos as int },
                        ]);
                    }
                    regions.push((pending_pos, pending_len));
                    pending_pos = pos;
                    pending_len = 1;
                } else {
                    proof {
                        assert(del_chars(pending_pos as int, 0int) =~= Seq::<
                            EffectStep,
                        >::empty());
                        assert(del_chars(pos as int, 1int) =~= seq![
                            EffectStep::DelChar { pos: pos as int },
                        ]);
                    }
                    pending_pos = pos;
                    pending_len = 1;
                }
            } else {
                proof {
                    assert(del_step(es_before, target.client, c as int).1 =~= Seq::<
                        EffectStep,
                    >::empty());
                }
            }
            proof {
                let u1 = del_step(es_before, target.client, c as int).1;
                let suf = del_range(self.elems@, target.client, c + 1, target.end as int).1;
                assert(del_range(es_before, target.client, c as int, target.end as int).1 == u1
                    + suf);
            }
            c = c + 1;
        }
        if pending_len > 0 {
            proof {
                lemma_expand_del_snoc(regions@, (pending_pos, pending_len));
            }
            regions.push((pending_pos, pending_len));
        }
        proof {
            lemma_wf_same_ids(*old(self), *self);
            assert(expand_del(regions@) =~= total.1);
            assert(self.elems@ =~= total.0);
        }
        Ok(regions)
    }

    /// Index of the operation record covering `(client, c)`, if any.
    pub fn find_op(&self, client: u64, c: i32) -> (r: Option<usize>)
        requires
            self.wf(),
        ensures
            match r {
                Some(oi) => oi < self.ops@.len() && op_covers(self.ops@[oi as int], client, c as int)
                    && op_idx(self.ops@, client, c as int) == oi && has_op(
                    self.ops@,
                    client,
                    c as int,
                ),
                None => !has_op(self.ops@, client, c as int),
            },
    {
        let mut oi: usize = 0;
        while oi < self.ops.len()
            invariant
                oi <= self.ops@.len(),
                self.wf(),
                forall|k: int|
                    0 <= k < oi ==> !(#[trigger] op_covers(self.ops@[k], client, c as int)),
            decreases self.ops@.len() - oi,
        {
            let cov: bool;
            match &self.ops[oi] {
                OpRec::Ins { span: s } => {
                    cov = s.client == client && s.start <= c && c < s.end;
                },
                OpRec::Del { client: dc, start, len, .. } => {
                    proof {
                        assert(op_wf(self.ops@[oi as int]));
                    }
                    cov = *dc == client && *start <= c && (c as i64) < (*start as i64) + (*len
                        as i64);
                },
            }
            if cov {
                proof {
                    assert(op_covers(self.ops@[oi as int], client, c as int));
                    lemma_op_idx_unique(self.ops@, oi as int, client, c as int);
                }
                return Some(oi);
            }
            oi += 1;
        }
        proof {
            if has_op(self.ops@, client, c as int) {
                let w = op_idx(self.ops@, client, c as int);
                assert(op_covers(self.ops@[w], client, c as int));
            }
        }
        None
    }

    /// Resolves the first identifier of `span` to the operation covering it:
    /// either the physical run of content elements starting there (an
    /// insertion cursor, sliced to the span and to the end of the contiguous
    /// run), or the delete operation covering it. Returns `None` when
    /// nothing in the store covers the start of the span. Every cursor
    /// returned really carries the identifiers it claims to resolve.
    pub fn lookup_first(&self, span: IdSpan) -> (r: Option<FirstCursor>)
        requires
            self.wf(),
            span.wf(),
            span.spec_len() > 0,
        ensures
            match r {
                None => !has_op(self.ops@, span.client, span.start as int),
                Some(FirstCursor::Ins { idx, len }) => {
                    &&& 1 <= len <= span.spec_len()
                    &&& idx + len <= self.elems@.len()
                    &&& forall|k: int|
                        0 <= k < len ==> (#[trigger] self.elems@[idx + k]).client == span.client
                            && self.elems@[idx + k].ctr == span.start + k
                    &&& has_ins_op(self.ops@, span.client, span.start as int)
                    &&& len == span.spec_len() || idx + len == self.elems@.len() || !(
                    self.elems@[idx + len].client == span.client && self.elems@[idx + len].ctr
                        == span.start + len)
                },
                Some(FirstCursor::Del { op_idx, offset, len }) => {
                    &&& op_idx < self.ops@.len()
                    &&& !is_ins_op(self.ops@[op_idx as int])
                    &&& op_covers(self.ops@[op_idx as int], span.client, span.start as int)
                    &&& offset == span.start - op_start(self.ops@[op_idx as int])
                    &&& len == if op_id_len(self.ops@[op_idx as int]) - offset
                        <= span.spec_len() {
                        op_id_len(self.ops@[op_idx as int]) - offset
                    } else {
                        span.spec_len()
                    }
                },
            },
    {
        let mut oi: usize = 0;
        let found: usize;
        loop
            invariant
                oi <= self.ops@.len(),
                self.wf(),
                span.wf(),
                span.spec_len() > 0,
                forall|k: int|
                    0 <= k < oi ==> !(#[trigger] op_covers(
                        self.ops@[k],
                        span.client,
                        span.start as int,
                    )),
            ensures
                found < self.ops@.len(),
                op_covers(self.ops@[found as int], span.client, span.start as int),
            decreases self.ops@.len() - oi,
        {
            if oi >= self.ops.len() {
                proof {
                    if has_op(self.ops@, span.client, span.start as int) {
                        let w = op_idx(self.ops@, span.client, span.start as int);
                        assert(op_covers(self.ops@[w], span.client, span.start as int));
                    }
                }
                return None;
            }
            let cov: bool;
            match &self.ops[oi] {
                OpRec::Ins { span: s } => {
                    cov = s.client == span.client && s.start <= span.start && span.start < s.end;
                },
                OpRec::Del { client, start, len, .. } => {
                    proof {
                        assert(op_wf(self.ops@[oi as int]));
                    }
                    cov = *client == span.client && *start <= span.start && (span.start as i64) < (
                    *start as i64) + (*len as i64);
                },
            }
            if cov {
                proof {
                    assert(op_wf(self.ops@[oi as int]));
                    assert(op_covers(self.ops@[oi as int], span.client, span.start as int));
                }
                found = oi;
                break ;
            }
            oi += 1;
        }
        let is_ins: bool;
        let op_start_c: i32;
        let op_len: usize;
        match &self.ops[found] {
            OpRec::Ins { span: s } => {
                is_ins = true;
                op_start_c = s.start;
                op_len = 0;
            },
            OpRec::Del { start, len, .. } => {
                proof {
                    assert(op_wf(self.ops@[found as int]));
                }
                is_ins = false;
                op_start_c = *start;
                op_len = *len;
            },
        }
        if is_ins {
            proof {
                assert(has_ins_op(self.ops@, span.client, span.start as int));
            }
            let idx = match self.find_elem(span.client, span.start) {
                Some(i) => i,
                None => {
                    proof {
                        assert(false);
                    }
                    return None;
                },
            };
            let span_len = span.len();
            let mut l: usize = 1;
            loop
                invariant
                    1 <= l <= span_len,
                    span.wf(),
                    span_len == span.spec_len(),
                    idx + l <= self.elems@.len(),
                    forall|k: int|
                        0 <= k < l ==> (#[trigger] self.elems@[idx + k]).client == span.client
                            && self.elems@[idx + k].ctr == span.start + k,
                ensures
                    l == span_len || idx + l == self.elems@.len() || !(self.elems@[idx
                        + l].client == span.client && self.elems@[idx + l].ctr == span.start + l),
                decreases span_len - l,
            {
                if l >= span_len {
                    break ;
                }
                let n = self.elems.len();
                if n - idx <= l {
                    break ;
                }
                let e = self.elems[idx + l];
                if !(e.client == span.client && e.ctr == span.start + (l as i32)) {
                    break ;
                }
                l += 1;
            }
            Some(FirstCursor::Ins { idx, len: l })
        } else {
            let offset = (span.start - op_start_c) as usize;
            let rest = op_len - offset;
            let span_len = span.len();
            let len = if rest <= span_len {
                rest
            } else {
                span_len
            };
            Some(FirstCursor::Del { op_idx: found, offset, len })
        }
    }

    /// The visible content of the container, in order.
    pub fn visible_content(&self) -> (r: Vec<u8>)
        ensures
            r@ == visible_bytes(self.elems@),
    {
        let mut out: Vec<u8> = Vec::new();
        let mut i: usize = 0;
        while i < self.elems.len()
            invariant
                i <= self.elems@.len(),
                out@ == visible_bytes(self.elems@.take(i as int)),
            decreases self.elems@.len() - i,
        {
            let e = self.elems[i];
            proof {
                assert(self.elems@.take(i + 1) == self.elems@.take(i as int).push(
                    self.elems@[i as int],
                ));
                reveal_with_fuel(Seq::filter, 2);
                assert(self.elems@.take(i as int).push(self.elems@[i as int]).drop_last()
                    == self.elems@.take(i as int));
            }
            if e.cur && e.dels == 0 {
                out.push(e.byte);
            }
            i += 1;
        }
        proof {
            assert(self.elems@.take(self.elems@.len() as int) == self.elems@);
        }
        out
    }
}

} // verus!
