//! Algebraic laws of the merge engine.
//!
//! These public proofs state, over the store's specification model, the
//! order-independence properties that make the engine conflict-free: status
//! updates and whole operation steps commute, deletes of the same content
//! accumulate instead of cancelling, a repeated effect pass is silent and
//! returns zero effect records, and the emitted steps transform the
//! rendered view exactly.

use vstd::prelude::*;

use crate::effects::{
    apply_id, apply_span, apply_targets, effect_view, expand_effects, lemma_no_steps_no_records,
    rec_wf, StepRes,
};
use crate::ids::IdSpan;
use crate::store::{
    apply_status, del_range, del_step, elem_idx, elem_visible, expand_del, fire_targets, has_elem,
    has_op, is_ins_op, lemma_elem_idx_unique, lemma_empty_canonical_regions,
    lemma_same_ids_has_elem, op_idx, regions_canonical, same_ids, sat_inc, uniq_elems, vis_count,
    visible_bytes, Effect, Elem, EffectStep, OpRec, StatusChange,
};

verus! {

/// An identifier whose operation has nothing left to contribute to the
/// view: its insertion is already current, or its delete is already fired.
pub open spec fn id_settled(
    es: Seq<Elem>,
    ops: Seq<OpRec>,
    fired: Seq<bool>,
    client: u64,
    c: int,
) -> bool {
    has_op(ops, client, c) ==> {
        let oi = op_idx(ops, client, c);
        if is_ins_op(ops[oi]) {
            has_elem(es, client, c) ==> es[elem_idx(es, client, c)].cur
        } else {
            fired[oi]
        }
    }
}

/// Current bits only ever get set, fired bits only ever get set.
pub open spec fn monotone_step(es1: Seq<Elem>, f1: Seq<bool>, es2: Seq<Elem>, f2: Seq<
    bool,
>) -> bool {
    &&& same_ids(es1, es2)
    &&& (forall|i: int| 0 <= i < es1.len() && (#[trigger] es1[i]).cur ==> es2[i].cur)
    &&& f2.len() == f1.len()
    &&& (forall|oi: int| 0 <= oi < f1.len() && (#[trigger] f1[oi]) ==> f2[oi])
}

proof fn lemma_del_range_monotone(es: Seq<Elem>, client: u64, lo: int, hi: int)
    requires
        uniq_elems(es),
    ensures
        same_ids(es, del_range(es, client, lo, hi).0),
        forall|i: int|
            0 <= i < es.len() && (#[trigger] es[i]).cur ==> del_range(es, client, lo, hi).0[i].cur,
{
    lemma_del_range_effect(es, client, lo, hi);
    crate::store::lemma_del_range_same_ids(es, client, lo, hi);
    assert forall|i: int|
        0 <= i < es.len() && (#[trigger] es[i]).cur implies del_range(
        es,
        client,
        lo,
        hi,
    ).0[i].cur by {
        if es[i].client == client && lo <= es[i].ctr < hi {
            assert(del_range(es, client, lo, hi).0[i] == (Elem {
                dels: sat_inc(es[i].dels),
                ..es[i]
            }));
        } else {
            assert(del_range(es, client, lo, hi).0[i] == es[i]);
        }
    }
}

proof fn lemma_fire_targets_monotone(es: Seq<Elem>, ts: Seq<IdSpan>)
    requires
        uniq_elems(es),
    ensures
        same_ids(es, fire_targets(es, ts).0),
        uniq_elems(fire_targets(es, ts).0),
        forall|i: int|
            0 <= i < es.len() && (#[trigger] es[i]).cur ==> fire_targets(es, ts).0[i].cur,
    decreases ts.len(),
{
    crate::store::lemma_fire_targets_same_ids(es, ts);
    lemma_same_ids_has_elem(es, fire_targets(es, ts).0);
    if ts.len() > 0 {
        let es1 = del_range(es, ts[0].client, ts[0].start as int, ts[0].end as int).0;
        lemma_del_range_monotone(es, ts[0].client, ts[0].start as int, ts[0].end as int);
        crate::store::lemma_del_range_same_ids(es, ts[0].client, ts[0].start as int, ts[0].end as int);
        lemma_same_ids_has_elem(es, es1);
        lemma_fire_targets_monotone(es1, ts.drop_first());
    }
}

/// One pass step only ever sets bits: the store's causal state advances
/// monotonically, and the step's own identifier is settled afterwards.
proof fn lemma_apply_id_monotone(
    es: Seq<Elem>,
    ops: Seq<OpRec>,
    fired: Seq<bool>,
    client: u64,
    c: int,
)
    requires
        uniq_elems(es),
        fired.len() == ops.len(),
    ensures
        monotone_step(es, fired, apply_id(es, ops, fired, client, c).elems, apply_id(
            es,
            ops,
            fired,
            client,
            c,
        ).fired),
        uniq_elems(apply_id(es, ops, fired, client, c).elems),
        apply_id(es, ops, fired, client, c).fired.len() == ops.len(),
        id_settled(
            apply_id(es, ops, fired, client, c).elems,
            ops,
            apply_id(es, ops, fired, client, c).fired,
            client,
            c,
        ),
{
    let r = apply_id(es, ops, fired, client, c);
    if has_op(ops, client, c) {
        let oi = op_idx(ops, client, c);
        match ops[oi] {
            OpRec::Ins { span } => {
                if has_elem(es, client, c) {
                    let i = elem_idx(es, client, c);
                    if !es[i].cur {
                        assert(r.elems == es.update(i, Elem { cur: true, ..es[i] }));
                    }
                    assert(same_ids(es, r.elems));
                    lemma_same_ids_has_elem(es, r.elems);
                    lemma_elem_idx_unique(r.elems, i, client, c);
                } else {
                    assert(same_ids(es, r.elems));
                    lemma_same_ids_has_elem(es, r.elems);
                }
            },
            OpRec::Del { .. } => {
                if fired[oi] {
                } else {
                    lemma_fire_targets_monotone(es, crate::effects::del_targets_of(ops[oi]));
                    lemma_same_ids_has_elem(es, r.elems);
                }
            },
        }
    }
}

/// Settledness is stable under monotone advancement of the causal state.
proof fn lemma_settled_stable(
    es1: Seq<Elem>,
    f1: Seq<bool>,
    es2: Seq<Elem>,
    f2: Seq<bool>,
    ops: Seq<OpRec>,
    client: u64,
    c: int,
)
    requires
        uniq_elems(es1),
        f1.len() == ops.len(),
        monotone_step(es1, f1, es2, f2),
        id_settled(es1, ops, f1, client, c),
    ensures
        id_settled(es2, ops, f2, client, c),
{
    lemma_same_ids_has_elem(es1, es2);
    if has_op(ops, client, c) {
        let oi = op_idx(ops, client, c);
        assert(0 <= oi < ops.len());
        if is_ins_op(ops[oi]) {
            if has_elem(es2, client, c) {
                let i = elem_idx(es1, client, c);
                lemma_elem_idx_unique(es2, i, client, c);
                assert(es1[i].cur);
            }
        } else {
            assert(f1[oi]);
        }
    }
}

/// A pass over a settled identifier changes nothing and emits nothing.
proof fn lemma_apply_id_settled(
    es: Seq<Elem>,
    ops: Seq<OpRec>,
    fired: Seq<bool>,
    client: u64,
    c: int,
)
    requires
        uniq_elems(es),
        id_settled(es, ops, fired, client, c),
    ensures
        apply_id(es, ops, fired, client, c) == (StepRes {
            elems: es,
            fired,
            units: Seq::<EffectStep>::empty(),
        }),
{
    let r = apply_id(es, ops, fired, client, c);
    if has_op(ops, client, c) {
        let oi = op_idx(ops, client, c);
        match ops[oi] {
            OpRec::Ins { span } => {
                assert(r.units =~= Seq::<EffectStep>::empty());
            },
            OpRec::Del { .. } => {
                assert(fired[oi]);
            },
        }
    } else {
        assert(r.units =~= Seq::<EffectStep>::empty());
    }
    assert(r == (StepRes { elems: es, fired, units: Seq::<EffectStep>::empty() }));
}

/// After a pass over a span, every identifier of the span is settled, and
/// identifiers settled before stay settled.
proof fn lemma_apply_span_settles(
    es: Seq<Elem>,
    ops: Seq<OpRec>,
    fired: Seq<bool>,
    client: u64,
    lo: int,
    hi: int,
)
    requires
        uniq_elems(es),
        fired.len() == ops.len(),
    ensures
        monotone_step(es, fired, apply_span(es, ops, fired, client, lo, hi).elems, apply_span(
            es,
            ops,
            fired,
            client,
            lo,
            hi,
        ).fired),
        uniq_elems(apply_span(es, ops, fired, client, lo, hi).elems),
        apply_span(es, ops, fired, client, lo, hi).fired.len() == ops.len(),
        forall|c: int|
            lo <= c < hi ==> #[trigger] id_settled(
                apply_span(es, ops, fired, client, lo, hi).elems,
                ops,
                apply_span(es, ops, fired, client, lo, hi).fired,
                client,
                c,
            ),
        forall|cl2: u64, c2: int|
            #[trigger] id_settled(es, ops, fired, cl2, c2) ==> id_settled(
                apply_span(es, ops, fired, client, lo, hi).elems,
                ops,
                apply_span(es, ops, fired, client, lo, hi).fired,
                cl2,
                c2,
            ),
    decreases hi - lo,
{
    let r = apply_span(es, ops, fired, client, lo, hi);
    if lo < hi {
        let s1 = apply_id(es, ops, fired, client, lo);
        lemma_apply_id_monotone(es, ops, fired, client, lo);
        lemma_apply_span_settles(s1.elems, ops, s1.fired, client, lo + 1, hi);
        assert forall|c: int| lo <= c < hi implies id_settled(r.elems, ops, r.fired, client, c) by {
            if c == lo {
                lemma_settled_stable(s1.elems, s1.fired, r.elems, r.fired, ops, client, lo);
            }
        }
        assert forall|cl2: u64, c2: int|
            id_settled(es, ops, fired, cl2, c2) implies id_settled(
            r.elems,
            ops,
            r.fired,
            cl2,
            c2,
        ) by {
            lemma_settled_stable(es, fired, s1.elems, s1.fired, ops, cl2, c2);
        }
    }
}

/// A pass over a span whose identifiers are all settled is the identity and
/// emits nothing.
proof fn lemma_apply_span_silent(
    es: Seq<Elem>,
    ops: Seq<OpRec>,
    fired: Seq<bool>,
    client: u64,
    lo: int,
    hi: int,
)
    requires
        uniq_elems(es),
        forall|c: int| lo <= c < hi ==> #[trigger] id_settled(es, ops, fired, client, c),
    ensures
        apply_span(es, ops, fired, client, lo, hi) == (StepRes {
            elems: es,
            fired,
            units: Seq::<EffectStep>::empty(),
        }),
    decreases hi - lo,
{
    if lo < hi {
        lemma_apply_id_settled(es, ops, fired, client, lo);
        lemma_apply_span_silent(es, ops, fired, client, lo + 1, hi);
        assert(apply_span(es, ops, fired, client, lo, hi).units =~= Seq::<EffectStep>::empty());
        assert(apply_span(es, ops, fired, client, lo, hi) == (StepRes {
            elems: es,
            fired,
            units: Seq::<EffectStep>::empty(),
        }));
    }
}

/// After a full pass, every identifier of every target span is settled.
proof fn lemma_apply_targets_settles(
    es: Seq<Elem>,
    ops: Seq<OpRec>,
    fired: Seq<bool>,
    ts: Seq<IdSpan>,
)
    requires
        uniq_elems(es),
        fired.len() == ops.len(),
    ensures
        uniq_elems(apply_targets(es, ops, fired, ts).elems),
        apply_targets(es, ops, fired, ts).fired.len() == ops.len(),
        forall|j: int, c: int|
            0 <= j < ts.len() && ts[j].start <= c < ts[j].end ==> #[trigger] id_settled(
                apply_targets(es, ops, fired, ts).elems,
                ops,
                apply_targets(es, ops, fired, ts).fired,
                ts[j].client,
                c,
            ),
    decreases ts.len(),
{
    let r = apply_targets(es, ops, fired, ts);
    if ts.len() > 0 {
        let s1 = apply_span(es, ops, fired, ts[0].client, ts[0].start as int, ts[0].end as int);
        lemma_apply_span_settles(es, ops, fired, ts[0].client, ts[0].start as int, ts[0].end as int);
        lemma_apply_targets_settles(s1.elems, ops, s1.fired, ts.drop_first());
        assert forall|j: int, c: int|
            0 <= j < ts.len() && ts[j].start <= c < ts[j].end implies #[trigger] id_settled(
            r.elems,
            ops,
            r.fired,
            ts[j].client,
            c,
        ) by {
            if j == 0 {
                lemma_apply_targets_preserves_settled(
                    s1.elems,
                    ops,
                    s1.fired,
                    ts.drop_first(),
                    ts[0].client,
                    c,
                );
            } else {
                assert(ts.drop_first()[j - 1] == ts[j]);
            }
        }
    }
}

/// Identifiers settled before a pass stay settled after it.
proof fn lemma_apply_targets_preserves_settled(
    es: Seq<Elem>,
    ops: Seq<OpRec>,
    fired: Seq<bool>,
    ts: Seq<IdSpan>,
    client: u64,
    c: int,
)
    requires
        uniq_elems(es),
        fired.len() == ops.len(),
        id_settled(es, ops, fired, client, c),
    ensures
        id_settled(
            apply_targets(es, ops, fired, ts).elems,
            ops,
            apply_targets(es, ops, fired, ts).fired,
            client,
            c,
        ),
    decreases ts.len(),
{
    if ts.len() > 0 {
        let s1 = apply_span(es, ops, fired, ts[0].client, ts[0].start as int, ts[0].end as int);
        lemma_apply_span_settles(es, ops, fired, ts[0].client, ts[0].start as int, ts[0].end as int);
        lemma_apply_targets_preserves_settled(s1.elems, ops, s1.fired, ts.drop_first(), client, c);
    }
}

/// A pass over target spans whose identifiers are all settled is the
/// identity and emits nothing.
proof fn lemma_apply_targets_silent(
    es: Seq<Elem>,
    ops: Seq<OpRec>,
    fired: Seq<bool>,
    ts: Seq<IdSpan>,
)
    requires
        uniq_elems(es),
        forall|j: int, c: int|
            0 <= j < ts.len() && ts[j].start <= c < ts[j].end ==> #[trigger] id_settled(
                es,
                ops,
                fired,
                ts[j].client,
                c,
            ),
    ensures
        apply_targets(es, ops, fired, ts) == (StepRes {
            elems: es,
            fired,
            units: Seq::<EffectStep>::empty(),
        }),
    decreases ts.len(),
{
    if ts.len() > 0 {
        lemma_apply_span_silent(es, ops, fired, ts[0].client, ts[0].start as int, ts[0].end as int);
        assert forall|j: int, c: int|
            0 <= j < ts.drop_first().len() && ts.drop_first()[j].start <= c
                < ts.drop_first()[j].end implies #[trigger] id_settled(
            es,
            ops,
            fired,
            ts.drop_first()[j].client,
            c,
        ) by {
            assert(ts.drop_first()[j] == ts[j + 1]);
        }
        lemma_apply_targets_silent(es, ops, fired, ts.drop_first());
        assert(apply_targets(es, ops, fired, ts).units =~= Seq::<EffectStep>::empty());
        assert(apply_targets(es, ops, fired, ts) == (StepRes {
            elems: es,
            fired,
            units: Seq::<EffectStep>::empty(),
        }));
    }
}

/// Span coverage: after any sequence of integrations, the content
/// elements' identifiers partition the set of integrated insert
/// identifiers — every integrated insert identifier is covered by exactly
/// one element, no identifier is ever dropped or duplicated, and every
/// element's identifier traces back to an insert record.
pub proof fn lemma_span_coverage(t: crate::store::Tracker)
    requires
        t.wf(),
    ensures
        forall|oi: int, c: int|
            0 <= oi < t.ops@.len() && is_ins_op(t.ops@[oi]) && #[trigger] crate::store::op_covers(
                t.ops@[oi],
                crate::store::op_client(t.ops@[oi]),
                c,
            ) ==> has_elem(t.elems@, crate::store::op_client(t.ops@[oi]), c),
        forall|i: int|
            0 <= i < t.elems@.len() ==> crate::store::has_ins_op(
                t.ops@,
                (#[trigger] t.elems@[i]).client,
                t.elems@[i].ctr as int,
            ),
        forall|cl: u64, c: int|
            has_elem(t.elems@, cl, c) ==> forall|j: int|
                0 <= j < t.elems@.len() && (#[trigger] t.elems@[j]).client == cl
                    && t.elems@[j].ctr == c ==> j == elem_idx(t.elems@, cl, c),
{
    assert forall|cl: u64, c: int| has_elem(t.elems@, cl, c) implies forall|j: int|
        0 <= j < t.elems@.len() && (#[trigger] t.elems@[j]).client == cl && t.elems@[j].ctr == c
            ==> j == elem_idx(t.elems@, cl, c) by {
        assert forall|j: int|
            0 <= j < t.elems@.len() && (#[trigger] t.elems@[j]).client == cl && t.elems@[j].ctr
                == c implies j == elem_idx(t.elems@, cl, c) by {
            lemma_elem_idx_unique(t.elems@, j, cl, c);
        }
    }
}

/// Applying one elementary step to a rendered view.
pub open spec fn apply_unit(view: Seq<u8>, st: EffectStep) -> Seq<u8> {
    match st {
        EffectStep::AddChar { pos, byte } => view.insert(pos, byte),
        EffectStep::DelChar { pos } => view.remove(pos),
    }
}

/// Applying a sequence of elementary steps, in order.
pub open spec fn apply_units(view: Seq<u8>, units: Seq<EffectStep>) -> Seq<u8>
    decreases units.len(),
{
    if units.len() == 0 {
        view
    } else {
        apply_units(apply_unit(view, units[0]), units.drop_first())
    }
}

proof fn lemma_apply_units_app(view: Seq<u8>, u1: Seq<EffectStep>, u2: Seq<EffectStep>)
    ensures
        apply_units(view, u1 + u2) == apply_units(apply_units(view, u1), u2),
    decreases u1.len(),
{
    if u1.len() == 0 {
        assert(u1 + u2 =~= u2);
    } else {
        assert((u1 + u2)[0] == u1[0]);
        assert((u1 + u2).drop_first() =~= u1.drop_first() + u2);
        lemma_apply_units_app(apply_unit(view, u1[0]), u1.drop_first(), u2);
    }
}

/// The number of visible elements before `i` is the length of the rendered
/// prefix.
proof fn lemma_vis_count_is_visible_len(es: Seq<Elem>, i: int)
    requires
        0 <= i <= es.len(),
    ensures
        visible_bytes(es.take(i)).len() == vis_count(es, i),
    decreases i,
{
    reveal_with_fuel(Seq::filter, 2);
    if i > 0 {
        lemma_vis_count_is_visible_len(es, i - 1);
        assert(es.take(i).drop_last() =~= es.take(i - 1));
        assert(es.take(i)[i - 1] == es[i - 1]);
        assert(es.take(i).filter(|e: Elem| elem_visible(e)) == if elem_visible(es[i - 1]) {
            es.take(i - 1).filter(|e: Elem| elem_visible(e)).push(es[i - 1])
        } else {
            es.take(i - 1).filter(|e: Elem| elem_visible(e))
        });
    } else {
        assert(es.take(0) =~= Seq::<Elem>::empty());
    }
}

/// The rendered view decomposes around any element.
proof fn lemma_visible_bytes_decompose(es: Seq<Elem>, i: int)
    requires
        0 <= i < es.len(),
    ensures
        visible_bytes(es) == visible_bytes(es.take(i)) + (if elem_visible(es[i]) {
            seq![es[i].byte]
        } else {
            Seq::<u8>::empty()
        }) + visible_bytes(es.skip(i + 1)),
{
    broadcast use Seq::filter_distributes_over_add;

    reveal_with_fuel(Seq::filter, 2);
    let pred = |e: Elem| elem_visible(e);
    let a = es.take(i);
    let mid = seq![es[i]];
    let b = es.skip(i + 1);
    assert(es =~= (a + mid) + b);
    assert(mid.drop_last() =~= Seq::<Elem>::empty());
    assert(mid.filter(pred) == if elem_visible(es[i]) {
        seq![es[i]]
    } else {
        Seq::<Elem>::empty()
    });
    assert(es.filter(pred) == (a + mid).filter(pred) + b.filter(pred));
    assert((a + mid).filter(pred) == a.filter(pred) + mid.filter(pred));
    assert(visible_bytes(es) =~= visible_bytes(a) + mid.filter(pred).map_values(
        |e: Elem| e.byte,
    ) + visible_bytes(b));
    if elem_visible(es[i]) {
        assert(mid.filter(pred).map_values(|e: Elem| e.byte) =~= seq![es[i].byte]);
    } else {
        assert(mid.filter(pred).map_values(|e: Elem| e.byte) =~= Seq::<u8>::empty());
    }
}

/// Marking one identifier deleted transforms the rendered view exactly as
/// the emitted steps say.
proof fn lemma_del_step_view(es: Seq<Elem>, client: u64, c: int)
    requires
        uniq_elems(es),
    ensures
        apply_units(visible_bytes(es), del_step(es, client, c).1) == visible_bytes(
            del_step(es, client, c).0,
        ),
{
    if has_elem(es, client, c) {
        let i = elem_idx(es, client, c);
        let e = es[i];
        let es2 = del_step(es, client, c).0;
        assert(es2 == es.update(i, Elem { dels: sat_inc(e.dels), ..e }));
        lemma_visible_bytes_decompose(es, i);
        lemma_visible_bytes_decompose(es2, i);
        assert(es2.take(i) =~= es.take(i));
        assert(es2.skip(i + 1) =~= es.skip(i + 1));
        lemma_vis_count_is_visible_len(es, i);
        if elem_visible(e) {
            assert(!elem_visible(es2[i]));
            let v = visible_bytes(es);
            let pos = vis_count(es, i);
            let va = visible_bytes(es.take(i));
            let vb = visible_bytes(es.skip(i + 1));
            assert(v == va + seq![e.byte] + vb);
            assert(v.remove(pos) =~= va + vb);
            assert(visible_bytes(es2) == va + Seq::<u8>::empty() + vb);
            assert(visible_bytes(es2) =~= va + vb);
            assert(del_step(es, client, c).1 == seq![EffectStep::DelChar { pos }]);
            assert(apply_units(v, seq![EffectStep::DelChar { pos }]) == apply_units(
                v.remove(pos),
                seq![EffectStep::DelChar { pos }].drop_first(),
            ));
            assert(seq![EffectStep::DelChar { pos }].drop_first() =~= Seq::<EffectStep>::empty());
        } else {
            assert(!elem_visible(es2[i]));
            assert(visible_bytes(es2) =~= visible_bytes(es));
            assert(del_step(es, client, c).1 =~= Seq::<EffectStep>::empty());
        }
    } else {
        assert(del_step(es, client, c).1 =~= Seq::<EffectStep>::empty());
    }
}

/// Marking one identifier current transforms the rendered view exactly as
/// the emitted steps say.
proof fn lemma_set_cur_step_view(es: Seq<Elem>, client: u64, c: int)
    requires
        uniq_elems(es),
    ensures
        apply_units(visible_bytes(es), crate::store::set_cur_step(es, client, c).1)
            == visible_bytes(crate::store::set_cur_step(es, client, c).0),
{
    let r = crate::store::set_cur_step(es, client, c);
    if has_elem(es, client, c) {
        let i = elem_idx(es, client, c);
        let e = es[i];
        if e.cur {
            assert(r.1 =~= Seq::<EffectStep>::empty());
        } else {
            let es2 = es.update(i, Elem { cur: true, ..e });
            assert(r.0 == es2);
            lemma_visible_bytes_decompose(es, i);
            lemma_visible_bytes_decompose(es2, i);
            assert(es2.take(i) =~= es.take(i));
            assert(es2.skip(i + 1) =~= es.skip(i + 1));
            lemma_vis_count_is_visible_len(es, i);
            let v = visible_bytes(es);
            let pos = vis_count(es, i);
            let va = visible_bytes(es.take(i));
            let vb = visible_bytes(es.skip(i + 1));
            assert(!elem_visible(e));
            assert(v == va + Seq::<u8>::empty() + vb);
            assert(v =~= va + vb);
            if e.dels == 0 {
                assert(elem_visible(es2[i]));
                assert(visible_bytes(es2) == va + seq![e.byte] + vb);
                assert(r.1 == seq![EffectStep::AddChar { pos, byte: e.byte }]);
                assert(v.insert(pos, e.byte) =~= va + seq![e.byte] + vb);
                assert(seq![EffectStep::AddChar { pos, byte: e.byte }][0]
                    == (EffectStep::AddChar { pos, byte: e.byte }));
                assert(seq![EffectStep::AddChar { pos, byte: e.byte }].drop_first() =~= Seq::<
                    EffectStep,
                >::empty());
                assert(apply_units(v, seq![EffectStep::AddChar { pos, byte: e.byte }])
                    == apply_units(
                    v.insert(pos, e.byte),
                    seq![EffectStep::AddChar { pos, byte: e.byte }].drop_first(),
                ));
            } else {
                assert(!elem_visible(es2[i]));
                assert(visible_bytes(es2) =~= v);
                assert(r.1 =~= Seq::<EffectStep>::empty());
            }
        }
    } else {
        assert(r.1 =~= Seq::<EffectStep>::empty());
    }
}

proof fn lemma_del_range_view(es: Seq<Elem>, client: u64, lo: int, hi: int)
    requires
        uniq_elems(es),
    ensures
        apply_units(visible_bytes(es), del_range(es, client, lo, hi).1) == visible_bytes(
            del_range(es, client, lo, hi).0,
        ),
    decreases hi - lo,
{
    if lo < hi {
        let (es1, u1) = del_step(es, client, lo);
        lemma_del_step_view(es, client, lo);
        crate::store::lemma_del_range_same_ids(es, client, lo, hi);
        assert(same_ids(es, es1));
        lemma_same_ids_has_elem(es, es1);
        lemma_del_range_view(es1, client, lo + 1, hi);
        lemma_apply_units_app(visible_bytes(es), u1, del_range(es1, client, lo + 1, hi).1);
    }
}

proof fn lemma_fire_targets_view(es: Seq<Elem>, ts: Seq<IdSpan>)
    requires
        uniq_elems(es),
    ensures
        apply_units(visible_bytes(es), fire_targets(es, ts).1) == visible_bytes(
            fire_targets(es, ts).0,
        ),
    decreases ts.len(),
{
    if ts.len() > 0 {
        let (es1, u1) = del_range(es, ts[0].client, ts[0].start as int, ts[0].end as int);
        lemma_del_range_view(es, ts[0].client, ts[0].start as int, ts[0].end as int);
        crate::store::lemma_del_range_same_ids(
            es,
            ts[0].client,
            ts[0].start as int,
            ts[0].end as int,
        );
        lemma_same_ids_has_elem(es, es1);
        lemma_fire_targets_view(es1, ts.drop_first());
        lemma_apply_units_app(visible_bytes(es), u1, fire_targets(es1, ts.drop_first()).1);
    }
}

proof fn lemma_apply_id_view(es: Seq<Elem>, ops: Seq<OpRec>, fired: Seq<bool>, client: u64, c: int)
    requires
        uniq_elems(es),
    ensures
        apply_units(visible_bytes(es), apply_id(es, ops, fired, client, c).units)
            == visible_bytes(apply_id(es, ops, fired, client, c).elems),
{
    let r = apply_id(es, ops, fired, client, c);
    if has_op(ops, client, c) {
        let oi = op_idx(ops, client, c);
        match ops[oi] {
            OpRec::Ins { span } => {
                lemma_set_cur_step_view(es, client, c);
            },
            OpRec::Del { .. } => {
                if !fired[oi] {
                    lemma_fire_targets_view(es, crate::effects::del_targets_of(ops[oi]));
                }
            },
        }
    }
}

proof fn lemma_apply_span_view(
    es: Seq<Elem>,
    ops: Seq<OpRec>,
    fired: Seq<bool>,
    client: u64,
    lo: int,
    hi: int,
)
    requires
        uniq_elems(es),
        fired.len() == ops.len(),
    ensures
        apply_units(visible_bytes(es), apply_span(es, ops, fired, client, lo, hi).units)
            == visible_bytes(apply_span(es, ops, fired, client, lo, hi).elems),
    decreases hi - lo,
{
    if lo < hi {
        let s1 = apply_id(es, ops, fired, client, lo);
        lemma_apply_id_view(es, ops, fired, client, lo);
        lemma_apply_id_monotone(es, ops, fired, client, lo);
        lemma_apply_span_view(s1.elems, ops, s1.fired, client, lo + 1, hi);
        lemma_apply_units_app(
            visible_bytes(es),
            s1.units,
            apply_span(s1.elems, ops, s1.fired, client, lo + 1, hi).units,
        );
    }
}

/// The pass's output is exactly the view transformation: applying the
/// emitted elementary steps, in order, to the previously rendered content
/// yields the content rendered by the updated store. Together with the
/// executable pass's contract — the coalesced effects expand to exactly
/// these steps — a rendering layer that applies the effect stream stays
/// consistent with the store at every intermediate step.
pub proof fn lemma_pass_transforms_view(
    es: Seq<Elem>,
    ops: Seq<OpRec>,
    fired: Seq<bool>,
    ts: Seq<IdSpan>,
)
    requires
        uniq_elems(es),
        fired.len() == ops.len(),
    ensures
        apply_units(visible_bytes(es), apply_targets(es, ops, fired, ts).units) == visible_bytes(
            apply_targets(es, ops, fired, ts).elems,
        ),
    decreases ts.len(),
{
    if ts.len() > 0 {
        let s1 = apply_span(es, ops, fired, ts[0].client, ts[0].start as int, ts[0].end as int);
        lemma_apply_span_view(es, ops, fired, ts[0].client, ts[0].start as int, ts[0].end as int);
        lemma_apply_span_settles(es, ops, fired, ts[0].client, ts[0].start as int, ts[0].end as int);
        lemma_pass_transforms_view(s1.elems, ops, s1.fired, ts.drop_first());
        lemma_apply_units_app(
            visible_bytes(es),
            s1.units,
            apply_targets(s1.elems, ops, s1.fired, ts.drop_first()).units,
        );
    }
}

/// Idempotence: a pass produces its effect sequence only once. Replaying
/// the same target spans against the store a second time — as happens under
/// duplicate, at-least-once delivery — changes nothing and yields zero
/// effects.
pub proof fn lemma_idempotent_pass(
    es: Seq<Elem>,
    ops: Seq<OpRec>,
    fired: Seq<bool>,
    ts: Seq<IdSpan>,
)
    requires
        uniq_elems(es),
        fired.len() == ops.len(),
    ensures
        apply_targets(
            apply_targets(es, ops, fired, ts).elems,
            ops,
            apply_targets(es, ops, fired, ts).fired,
            ts,
        ) == (StepRes {
            elems: apply_targets(es, ops, fired, ts).elems,
            fired: apply_targets(es, ops, fired, ts).fired,
            units: Seq::<EffectStep>::empty(),
        }),
{
    let r = apply_targets(es, ops, fired, ts);
    lemma_apply_targets_settles(es, ops, fired, ts);
    lemma_apply_targets_silent(r.elems, ops, r.fired, ts);
}

/// The status change an integrated operation applies to one identifier:
/// nothing if the identifier has no element, else the per-element
/// transition.
pub open spec fn status_upd(es: Seq<Elem>, change: StatusChange, client: u64, c: int) -> Seq<
    Elem,
> {
    if has_elem(es, client, c) {
        let i = elem_idx(es, client, c);
        es.update(i, apply_status(es[i], change))
    } else {
        es
    }
}

/// Convergence of the visibility state: the status changes of two
/// integrated operations — marking content current, or marking it deleted —
/// produce the same store state in either order of application. (Where
/// concurrent inserts are placed is the surrounding merge policy's concern;
/// the causal state of every identifier is order-independent.)
pub proof fn lemma_status_updates_commute(
    es: Seq<Elem>,
    k1: StatusChange,
    cl1: u64,
    c1: int,
    k2: StatusChange,
    cl2: u64,
    c2: int,
)
    requires
        uniq_elems(es),
        !(k1 is UndoDelete),
        !(k2 is UndoDelete),
    ensures
        status_upd(status_upd(es, k1, cl1, c1), k2, cl2, c2) == status_upd(
            status_upd(es, k2, cl2, c2),
            k1,
            cl1,
            c1,
        ),
        crate::store::visible_bytes(status_upd(status_upd(es, k1, cl1, c1), k2, cl2, c2))
            == crate::store::visible_bytes(status_upd(status_upd(es, k2, cl2, c2), k1, cl1, c1)),
{
    if has_elem(es, cl1, c1) {
        let i1 = elem_idx(es, cl1, c1);
        let es1 = es.update(i1, apply_status(es[i1], k1));
        assert(same_ids(es, es1));
        lemma_same_ids_has_elem(es, es1);
        lemma_elem_idx_unique(es1, i1, cl1, c1);
        if has_elem(es, cl2, c2) {
            let i2 = elem_idx(es, cl2, c2);
            let es2 = es.update(i2, apply_status(es[i2], k2));
            assert(same_ids(es, es2));
            lemma_same_ids_has_elem(es, es2);
            lemma_elem_idx_unique(es2, i2, cl2, c2);
            lemma_elem_idx_unique(es1, i2, cl2, c2);
            lemma_elem_idx_unique(es2, i1, cl1, c1);
            if i1 == i2 {
                assert(apply_status(apply_status(es[i1], k1), k2) == apply_status(
                    apply_status(es[i1], k2),
                    k1,
                ));
                assert(status_upd(status_upd(es, k1, cl1, c1), k2, cl2, c2) =~= status_upd(
                    status_upd(es, k2, cl2, c2),
                    k1,
                    cl1,
                    c1,
                ));
            } else {
                assert(status_upd(status_upd(es, k1, cl1, c1), k2, cl2, c2) =~= status_upd(
                    status_upd(es, k2, cl2, c2),
                    k1,
                    cl1,
                    c1,
                ));
            }
        } else {
            lemma_same_ids_has_elem(es, es1);
        }
    } else {
        if has_elem(es, cl2, c2) {
            let i2 = elem_idx(es, cl2, c2);
            let es2 = es.update(i2, apply_status(es[i2], k2));
            assert(same_ids(es, es2));
            lemma_same_ids_has_elem(es, es2);
        }
    }
}

/// What one delete pass over a counter range does to the elements: exactly
/// the targeted identifiers take one more delete (saturating), everything
/// else is untouched.
pub proof fn lemma_del_range_effect(es: Seq<Elem>, client: u64, lo: int, hi: int)
    requires
        uniq_elems(es),
    ensures
        del_range(es, client, lo, hi).0.len() == es.len(),
        forall|i: int|
            0 <= i < es.len() && !((#[trigger] es[i]).client == client && lo <= es[i].ctr < hi)
                ==> del_range(es, client, lo, hi).0[i] == es[i],
        forall|i: int|
            0 <= i < es.len() && (#[trigger] es[i]).client == client && lo <= es[i].ctr < hi
                ==> del_range(es, client, lo, hi).0[i] == (Elem {
                dels: sat_inc(es[i].dels),
                ..es[i]
            }),
    decreases hi - lo,
{
    if lo < hi {
        let es1 = del_step(es, client, lo).0;
        assert(same_ids(es, es1));
        lemma_same_ids_has_elem(es, es1);
        lemma_del_range_effect(es1, client, lo + 1, hi);
        if has_elem(es, client, lo) {
            let i = elem_idx(es, client, lo);
            assert(es1 == es.update(i, Elem { dels: sat_inc(es[i].dels), ..es[i] }));
            assert forall|j: int|
                0 <= j < es.len() && !((#[trigger] es[j]).client == client && lo <= es[j].ctr
                    < hi) implies del_range(es, client, lo, hi).0[j] == es[j] by {
                assert(j != i);
                assert(es1[j] == es[j]);
                assert(!(es1[j].client == client && lo + 1 <= es1[j].ctr < hi));
            }
            assert forall|j: int|
                0 <= j < es.len() && (#[trigger] es[j]).client == client && lo <= es[j].ctr < hi
                    implies del_range(es, client, lo, hi).0[j] == (Elem {
                dels: sat_inc(es[j].dels),
                ..es[j]
            }) by {
                if es[j].ctr == lo {
                    lemma_elem_idx_unique(es, j, client, lo);
                    assert(j == i);
                    assert(!(es1[j].client == client && lo + 1 <= es1[j].ctr < hi));
                } else {
                    assert(es1[j] == es[j]);
                }
            }
        } else {
            assert(es1 == es);
            assert forall|j: int|
                0 <= j < es.len() && !((#[trigger] es[j]).client == client && lo <= es[j].ctr
                    < hi) implies del_range(es, client, lo, hi).0[j] == es[j] by {
                assert(!(es1[j].client == client && lo + 1 <= es1[j].ctr < hi));
            }
            assert forall|j: int|
                0 <= j < es.len() && (#[trigger] es[j]).client == client && lo <= es[j].ctr < hi
                    implies del_range(es, client, lo, hi).0[j] == (Elem {
                dels: sat_inc(es[j].dels),
                ..es[j]
            }) by {
                if es[j].ctr == lo {
                    lemma_elem_idx_unique(es, j, client, lo);
                }
            }
        }
    }
}

/// A delete pass over content that is already invisible emits nothing: the
/// tombstones only count one more concurrent delete.
pub proof fn lemma_del_range_silent(es: Seq<Elem>, client: u64, lo: int, hi: int)
    requires
        uniq_elems(es),
        forall|i: int|
            0 <= i < es.len() && (#[trigger] es[i]).client == client && lo <= es[i].ctr < hi
                ==> !elem_visible(es[i]),
    ensures
        del_range(es, client, lo, hi).1 == Seq::<crate::store::EffectStep>::empty(),
    decreases hi - lo,
{
    if lo < hi {
        let es1 = del_step(es, client, lo).0;
        assert(same_ids(es, es1));
        lemma_same_ids_has_elem(es, es1);
        if has_elem(es, client, lo) {
            let i = elem_idx(es, client, lo);
            assert(es[i].ctr == lo);
            assert(!elem_visible(es[i]));
            assert forall|j: int|
                0 <= j < es1.len() && (#[trigger] es1[j]).client == client && lo + 1 <= es1[j].ctr
                    < hi implies !elem_visible(es1[j]) by {
                assert(es1[j].cur == es[j].cur && es1[j].dels >= es[j].dels && es1[j].client
                    == es[j].client && es1[j].ctr == es[j].ctr);
            }
            lemma_del_range_silent(es1, client, lo + 1, hi);
            assert(del_step(es, client, lo).1 =~= Seq::<crate::store::EffectStep>::empty());
            assert(del_range(es, client, lo, hi).1 =~= Seq::<crate::store::EffectStep>::empty());
        } else {
            assert(es1 == es);
            lemma_del_range_silent(es1, client, lo + 1, hi);
            assert(del_range(es, client, lo, hi).1 =~= Seq::<crate::store::EffectStep>::empty());
        }
    }
}

/// Delete commutativity: two concurrently issued deletes of the same
/// visible content mark it deleted twice, and the content becomes invisible
/// with exactly the first of the two — the second integration changes
/// delete counts but emits no effect.
pub proof fn lemma_delete_commutativity(es: Seq<Elem>, client: u64, lo: int, hi: int)
    requires
        uniq_elems(es),
        forall|i: int|
            0 <= i < es.len() && (#[trigger] es[i]).client == client && lo <= es[i].ctr < hi
                ==> elem_visible(es[i]),
    ensures
        forall|i: int|
            0 <= i < es.len() && (#[trigger] es[i]).client == client && lo <= es[i].ctr < hi
                ==> !elem_visible(del_range(es, client, lo, hi).0[i]) && del_range(
                es,
                client,
                lo,
                hi,
            ).0[i].dels == 1,
        del_range(del_range(es, client, lo, hi).0, client, lo, hi).1 == Seq::<
            crate::store::EffectStep,
        >::empty(),
        forall|i: int|
            0 <= i < es.len() && (#[trigger] es[i]).client == client && lo <= es[i].ctr < hi
                ==> del_range(del_range(es, client, lo, hi).0, client, lo, hi).0[i].dels == 2,
{
    let es1 = del_range(es, client, lo, hi).0;
    lemma_del_range_effect(es, client, lo, hi);
    crate::store::lemma_del_range_same_ids(es, client, lo, hi);
    lemma_same_ids_has_elem(es, es1);
    assert forall|i: int|
        0 <= i < es1.len() && (#[trigger] es1[i]).client == client && lo <= es1[i].ctr < hi
            implies !elem_visible(es1[i]) by {
        assert(es[i].client == client && lo <= es[i].ctr < hi);
        assert(elem_visible(es[i]));
        assert(es1[i].dels == sat_inc(0));
    }
    lemma_del_range_silent(es1, client, lo, hi);
    lemma_del_range_effect(es1, client, lo, hi);
    assert forall|i: int|
        0 <= i < es.len() && (#[trigger] es[i]).client == client && lo <= es[i].ctr < hi
            implies del_range(es1, client, lo, hi).0[i].dels == 2 by {
        assert(elem_visible(es[i]));
        assert(es1[i].dels == 1);
        assert(es1[i].client == client && lo <= es1[i].ctr < hi);
    }
}


/// Duplicate delivery yields zero effect records, not merely records that
/// expand to nothing: a replayed pass's step sequence is empty
/// ([`lemma_idempotent_pass`]), and the pass only returns well-formed
/// records, so the returned effect list itself is empty.
pub proof fn lemma_duplicate_pass_no_effects(
    es: Seq<Elem>,
    ops: Seq<OpRec>,
    fired: Seq<bool>,
    ts: Seq<IdSpan>,
    effects: Seq<Effect>,
)
    requires
        uniq_elems(es),
        fired.len() == ops.len(),
        expand_effects(effects) == apply_targets(
            apply_targets(es, ops, fired, ts).elems,
            ops,
            apply_targets(es, ops, fired, ts).fired,
            ts,
        ).units,
        forall|k: int| 0 <= k < effects.len() ==> rec_wf(effect_view(#[trigger] effects[k])),
    ensures
        effects == Seq::<Effect>::empty(),
{
    lemma_idempotent_pass(es, ops, fired, ts);
    lemma_no_steps_no_records(effects);
}

/// The second of two concurrent deletes of the same content reports zero
/// regions, not merely regions that expand to nothing: its step sequence is
/// empty ([`lemma_delete_commutativity`]), and a delete pass only reports
/// canonical regions.
pub proof fn lemma_second_delete_no_regions(
    es: Seq<Elem>,
    client: u64,
    lo: int,
    hi: int,
    regions: Seq<(usize, usize)>,
)
    requires
        uniq_elems(es),
        forall|i: int|
            0 <= i < es.len() && (#[trigger] es[i]).client == client && lo <= es[i].ctr < hi
                ==> elem_visible(es[i]),
        regions_canonical(regions),
        expand_del(regions) == del_range(
            del_range(es, client, lo, hi).0,
            client,
            lo,
            hi,
        ).1,
    ensures
        regions == Seq::<(usize, usize)>::empty(),
{
    lemma_delete_commutativity(es, client, lo, hi);
    lemma_empty_canonical_regions(regions);
}


/// The delete count after `n` further concurrent deletes.
pub open spec fn sat_inc_n(d: u64, n: nat) -> u64
    decreases n,
{
    if n == 0 {
        d
    } else {
        sat_inc(sat_inc_n(d, (n - 1) as nat))
    }
}

proof fn lemma_sat_inc_n_add(d: u64, a: nat, b: nat)
    ensures
        sat_inc_n(sat_inc_n(d, a), b) == sat_inc_n(d, a + b),
    decreases b,
{
    if b > 0 {
        lemma_sat_inc_n_add(d, a, (b - 1) as nat);
    }
}

/// How many of the spans cover the identifier `(client, c)`.
pub open spec fn cover_count(ts: Seq<IdSpan>, client: u64, c: int) -> nat
    decreases ts.len(),
{
    if ts.len() == 0 {
        0
    } else {
        (if ts[0].covers(client, c) {
            1nat
        } else {
            0nat
        }) + cover_count(ts.drop_first(), client, c)
    }
}

/// Firing a delete operation's target list acts on each element
/// independently: its delete count grows by the number of target spans
/// covering its identifier, and nothing else changes.
proof fn lemma_fire_targets_elems(es: Seq<Elem>, ts: Seq<IdSpan>)
    requires
        uniq_elems(es),
    ensures
        fire_targets(es, ts).0.len() == es.len(),
        forall|i: int|
            0 <= i < es.len() ==> fire_targets(es, ts).0[i] == (Elem {
                dels: sat_inc_n(
                    es[i].dels,
                    cover_count(ts, (#[trigger] es[i]).client, es[i].ctr as int),
                ),
                ..es[i]
            }),
    decreases ts.len(),
{
    if ts.len() == 0 {
        assert forall|i: int| 0 <= i < es.len() implies fire_targets(es, ts).0[i] == (Elem {
            dels: sat_inc_n(
                es[i].dels,
                cover_count(ts, (#[trigger] es[i]).client, es[i].ctr as int),
            ),
            ..es[i]
        }) by {
            assert(sat_inc_n(es[i].dels, 0) == es[i].dels);
            assert(fire_targets(es, ts).0[i] == es[i]);
        }
    } else {
        let es1 = del_range(es, ts[0].client, ts[0].start as int, ts[0].end as int).0;
        lemma_del_range_effect(es, ts[0].client, ts[0].start as int, ts[0].end as int);
        crate::store::lemma_del_range_same_ids(
            es,
            ts[0].client,
            ts[0].start as int,
            ts[0].end as int,
        );
        lemma_same_ids_has_elem(es, es1);
        lemma_fire_targets_elems(es1, ts.drop_first());
        assert forall|i: int| 0 <= i < es.len() implies fire_targets(es, ts).0[i] == (Elem {
            dels: sat_inc_n(
                es[i].dels,
                cover_count(ts, (#[trigger] es[i]).client, es[i].ctr as int),
            ),
            ..es[i]
        }) by {
            let cl = es[i].client;
            let c = es[i].ctr as int;
            let rest = cover_count(ts.drop_first(), cl, c);
            assert(fire_targets(es, ts).0[i] == (Elem {
                dels: sat_inc_n(es1[i].dels, cover_count(ts.drop_first(), es1[i].client, es1[i].ctr as int)),
                ..es1[i]
            }));
            assert(es1[i].client == cl && es1[i].ctr == es[i].ctr && es1[i].byte == es[i].byte
                && es1[i].cur == es[i].cur);
            if ts[0].covers(cl, c) {
                assert(es1[i] == (Elem { dels: sat_inc(es[i].dels), ..es[i] }));
                assert(sat_inc_n(es[i].dels, 0) == es[i].dels);
                assert(es1[i].dels == sat_inc_n(es[i].dels, 1));
                lemma_sat_inc_n_add(es[i].dels, 1, rest);
            } else {
                assert(es1[i] == es[i]);
            }
        }
    }
}

/// Convergence at the operation-step level: integrating the causal effects
/// of two distinct operation identifiers — marking an insertion current, or
/// firing a delete operation against its targets — reaches the same store
/// state and fired set in either order. (Which identifiers there are, and
/// where inserted elements sit, is fixed by integration; this covers the
/// status effects an effect pass applies.)
pub proof fn lemma_apply_id_state_commutes(
    es: Seq<Elem>,
    ops: Seq<OpRec>,
    fired: Seq<bool>,
    cl1: u64,
    c1: int,
    cl2: u64,
    c2: int,
)
    requires
        uniq_elems(es),
        fired.len() == ops.len(),
        crate::store::ops_disjoint(ops),
        !(cl1 == cl2 && c1 == c2),
    ensures
        apply_id(
            apply_id(es, ops, fired, cl1, c1).elems,
            ops,
            apply_id(es, ops, fired, cl1, c1).fired,
            cl2,
            c2,
        ).elems == apply_id(
            apply_id(es, ops, fired, cl2, c2).elems,
            ops,
            apply_id(es, ops, fired, cl2, c2).fired,
            cl1,
            c1,
        ).elems,
        apply_id(
            apply_id(es, ops, fired, cl1, c1).elems,
            ops,
            apply_id(es, ops, fired, cl1, c1).fired,
            cl2,
            c2,
        ).fired == apply_id(
            apply_id(es, ops, fired, cl2, c2).elems,
            ops,
            apply_id(es, ops, fired, cl2, c2).fired,
            cl1,
            c1,
        ).fired,
{
    lemma_apply_id_monotone(es, ops, fired, cl1, c1);
    lemma_apply_id_monotone(es, ops, fired, cl2, c2);
    let s1 = apply_id(es, ops, fired, cl1, c1);
    let s2 = apply_id(es, ops, fired, cl2, c2);
    lemma_same_ids_has_elem(es, s1.elems);
    lemma_same_ids_has_elem(es, s2.elems);
    let s12 = apply_id(s1.elems, ops, s1.fired, cl2, c2);
    let s21 = apply_id(s2.elems, ops, s2.fired, cl1, c1);
    if !has_op(ops, cl1, c1) {
        assert(s1.elems == es && s1.fired == fired);
        assert(s21.elems == s2.elems && s21.fired == s2.fired);
    } else if !has_op(ops, cl2, c2) {
        assert(s2.elems == es && s2.fired == fired);
        assert(s12.elems == s1.elems && s12.fired == s1.fired);
    } else {
        let o1 = op_idx(ops, cl1, c1);
        let o2 = op_idx(ops, cl2, c2);
        if is_ins_op(ops[o1]) && is_ins_op(ops[o2]) {
            lemma_ins_state(es, ops, fired, cl1, c1);
            lemma_ins_state(es, ops, fired, cl2, c2);
            lemma_ins_state(s1.elems, ops, s1.fired, cl2, c2);
            lemma_ins_state(s2.elems, ops, s2.fired, cl1, c1);
            lemma_status_updates_commute(
                es,
                StatusChange::SetAsCurrent,
                cl1,
                c1,
                StatusChange::SetAsCurrent,
                cl2,
                c2,
            );
        } else if is_ins_op(ops[o1]) && !is_ins_op(ops[o2]) {
            lemma_ins_del_state_commute(es, ops, fired, cl1, c1, cl2, c2);
        } else if !is_ins_op(ops[o1]) && is_ins_op(ops[o2]) {
            lemma_ins_del_state_commute(es, ops, fired, cl2, c2, cl1, c1);
        } else {
            // Both identifiers belong to delete operations.
            if o1 == o2 {
                // The same operation: whichever identifier comes first fires
                // it, the other then finds it fired.
                if fired[o1] {
                    assert(s1.elems == es && s1.fired == fired);
                    assert(s2.elems == es && s2.fired == fired);
                } else {
                    assert(s1.fired == fired.update(o1, true));
                    assert(s1.fired[o2]);
                    assert(s12.elems == s1.elems && s12.fired == s1.fired);
                    assert(s2.fired == fired.update(o2, true));
                    assert(s2.fired[o1]);
                    assert(s21.elems == s2.elems && s21.fired == s2.fired);
                }
            } else {
                let ts1 = crate::effects::del_targets_of(ops[o1]);
                let ts2 = crate::effects::del_targets_of(ops[o2]);
                if fired[o1] {
                    assert(s1.elems == es && s1.fired == fired);
                    if fired[o2] {
                        assert(s21.elems == s2.elems && s21.fired == s2.fired);
                    } else {
                        assert(s2.fired == fired.update(o2, true));
                        assert(s2.fired[o1]);
                        assert(s21.elems == s2.elems && s21.fired == s2.fired);
                    }
                } else if fired[o2] {
                    assert(s2.elems == es && s2.fired == fired);
                    assert(s1.fired == fired.update(o1, true));
                    assert(s1.fired[o2]);
                    assert(s12.elems == s1.elems && s12.fired == s1.fired);
                } else {
                    // Both fire: per element the two operations only add
                    // their covering counts to the delete tally, which
                    // commutes.
                    assert(!s1.fired[o2] && !s2.fired[o1]);
                    assert(s1.elems == fire_targets(es, ts1).0);
                    assert(s12.elems == fire_targets(s1.elems, ts2).0);
                    assert(s2.elems == fire_targets(es, ts2).0);
                    assert(s21.elems == fire_targets(s2.elems, ts1).0);
                    lemma_fire_targets_elems(es, ts1);
                    lemma_fire_targets_elems(es, ts2);
                    crate::store::lemma_fire_targets_same_ids(es, ts1);
                    crate::store::lemma_fire_targets_same_ids(es, ts2);
                    lemma_same_ids_has_elem(es, s1.elems);
                    lemma_same_ids_has_elem(es, s2.elems);
                    lemma_fire_targets_elems(s1.elems, ts2);
                    lemma_fire_targets_elems(s2.elems, ts1);
                    assert forall|i: int| 0 <= i < es.len() implies s12.elems[i]
                        == s21.elems[i] by {
                        let cl = es[i].client;
                        let c = es[i].ctr as int;
                        let n1 = cover_count(ts1, cl, c);
                        let n2 = cover_count(ts2, cl, c);
                        assert(s1.elems[i] == (Elem { dels: sat_inc_n(es[i].dels, n1), ..es[i] }));
                        assert(s1.elems[i].client == cl && s1.elems[i].ctr == es[i].ctr);
                        assert(s12.elems[i] == (Elem {
                            dels: sat_inc_n(sat_inc_n(es[i].dels, n1), n2),
                            ..es[i]
                        }));
                        assert(s2.elems[i] == (Elem { dels: sat_inc_n(es[i].dels, n2), ..es[i] }));
                        assert(s21.elems[i] == (Elem {
                            dels: sat_inc_n(sat_inc_n(es[i].dels, n2), n1),
                            ..es[i]
                        }));
                        lemma_sat_inc_n_add(es[i].dels, n1, n2);
                        lemma_sat_inc_n_add(es[i].dels, n2, n1);
                    }
                    assert(s12.elems =~= s21.elems);
                    assert(s12.fired =~= s21.fired);
                }
            }
        }
    }
}

/// The state an insertion identifier's step reaches: exactly the
/// set-as-current status update; the fired set is untouched.
proof fn lemma_ins_state(es: Seq<Elem>, ops: Seq<OpRec>, fired: Seq<bool>, cl: u64, c: int)
    requires
        uniq_elems(es),
        has_op(ops, cl, c),
        is_ins_op(ops[op_idx(ops, cl, c)]),
    ensures
        apply_id(es, ops, fired, cl, c).elems =~= status_upd(
            es,
            StatusChange::SetAsCurrent,
            cl,
            c,
        ),
        apply_id(es, ops, fired, cl, c).fired == fired,
{
    if has_elem(es, cl, c) {
        let i = elem_idx(es, cl, c);
        if es[i].cur {
            assert(apply_id(es, ops, fired, cl, c).elems == es);
            assert(apply_status(es[i], StatusChange::SetAsCurrent) == es[i]);
            assert(status_upd(es, StatusChange::SetAsCurrent, cl, c) =~= es);
        } else {
            assert(apply_id(es, ops, fired, cl, c).elems == es.update(
                i,
                Elem { cur: true, ..es[i] },
            ));
        }
    }
}

/// Mixed commutation: marking an insertion current and firing a delete
/// operation reach the same state in either order.
proof fn lemma_ins_del_state_commute(
    es: Seq<Elem>,
    ops: Seq<OpRec>,
    fired: Seq<bool>,
    cli: u64,
    ci: int,
    cld: u64,
    cd: int,
)
    requires
        uniq_elems(es),
        fired.len() == ops.len(),
        has_op(ops, cli, ci),
        is_ins_op(ops[op_idx(ops, cli, ci)]),
        has_op(ops, cld, cd),
        !is_ins_op(ops[op_idx(ops, cld, cd)]),
    ensures
        apply_id(
            apply_id(es, ops, fired, cli, ci).elems,
            ops,
            apply_id(es, ops, fired, cli, ci).fired,
            cld,
            cd,
        ).elems == apply_id(
            apply_id(es, ops, fired, cld, cd).elems,
            ops,
            apply_id(es, ops, fired, cld, cd).fired,
            cli,
            ci,
        ).elems,
        apply_id(
            apply_id(es, ops, fired, cli, ci).elems,
            ops,
            apply_id(es, ops, fired, cli, ci).fired,
            cld,
            cd,
        ).fired == apply_id(
            apply_id(es, ops, fired, cld, cd).elems,
            ops,
            apply_id(es, ops, fired, cld, cd).fired,
            cli,
            ci,
        ).fired,
{
    let od = op_idx(ops, cld, cd);
    let ts = crate::effects::del_targets_of(ops[od]);
    lemma_apply_id_monotone(es, ops, fired, cli, ci);
    lemma_apply_id_monotone(es, ops, fired, cld, cd);
    let si = apply_id(es, ops, fired, cli, ci);
    let sd = apply_id(es, ops, fired, cld, cd);
    lemma_same_ids_has_elem(es, si.elems);
    lemma_same_ids_has_elem(es, sd.elems);
    lemma_ins_state(es, ops, fired, cli, ci);
    lemma_ins_state(sd.elems, ops, sd.fired, cli, ci);
    if fired[od] {
        assert(sd.elems == es && sd.fired == fired);
        assert(apply_id(si.elems, ops, si.fired, cld, cd).elems == si.elems);
        assert(apply_id(si.elems, ops, si.fired, cld, cd).fired == si.fired);
        assert(apply_id(sd.elems, ops, sd.fired, cli, ci).elems =~= si.elems);
    } else {
        assert(si.fired == fired);
        assert(apply_id(si.elems, ops, si.fired, cld, cd).elems == fire_targets(si.elems, ts).0);
        assert(apply_id(si.elems, ops, si.fired, cld, cd).fired == fired.update(od, true));
        assert(sd.elems == fire_targets(es, ts).0);
        assert(sd.fired == fired.update(od, true));
        assert(apply_id(sd.elems, ops, sd.fired, cli, ci).fired == fired.update(od, true));
        lemma_fire_targets_elems(es, ts);
        lemma_fire_targets_elems(si.elems, ts);
        // Per element: the current bit and the delete count are updated
        // independently.
        assert forall|i: int| 0 <= i < es.len() implies fire_targets(si.elems, ts).0[i]
            == apply_id(sd.elems, ops, sd.fired, cli, ci).elems[i] by {
            let cl = es[i].client;
            let c = es[i].ctr as int;
            let n = cover_count(ts, cl, c);
            assert(sd.elems[i] == (Elem { dels: sat_inc_n(es[i].dels, n), ..es[i] }));
            if has_elem(es, cli, ci as int) {
                let j = elem_idx(es, cli, ci);
                lemma_elem_idx_unique(sd.elems, j, cli, ci);
                if i == j {
                    assert(si.elems[i] == (Elem { cur: true, ..es[i] }));
                    assert(si.elems[i].client == cl && si.elems[i].ctr == es[i].ctr);
                    assert(fire_targets(si.elems, ts).0[i] == (Elem {
                        cur: true,
                        dels: sat_inc_n(es[i].dels, n),
                        ..es[i]
                    }));
                    assert(apply_id(sd.elems, ops, sd.fired, cli, ci).elems[i] == (Elem {
                        cur: true,
                        ..sd.elems[i]
                    }));
                } else {
                    assert(si.elems[i] == es[i]);
                    assert(apply_id(sd.elems, ops, sd.fired, cli, ci).elems[i] == sd.elems[i]);
                    assert(fire_targets(si.elems, ts).0[i] == (Elem {
                        dels: sat_inc_n(es[i].dels, n),
                        ..es[i]
                    }));
                }
            } else {
                assert(si.elems =~= es);
                assert(apply_id(sd.elems, ops, sd.fired, cli, ci).elems =~= sd.elems);
            }
        }
        assert(apply_id(si.elems, ops, si.fired, cld, cd).elems =~= apply_id(
            sd.elems,
            ops,
            sd.fired,
            cli,
            ci,
        ).elems);
    }
}

} // verus!
