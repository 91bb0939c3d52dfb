//! Tracker effect projection.
//!
//! Given a target set of identifier spans — the operations the local replica
//! has not yet rendered — the pass walks every identifier in order and turns
//! its integration into position-addressed effects: an insertion's content
//! becomes current (emitting `Ins` where content newly becomes visible), and
//! reaching a delete operation applies its targets in full (emitting `Del`
//! exactly where content that was visible becomes invisible). Identifiers
//! whose operation is already current or already fired contribute nothing,
//! which makes a repeated pass over the same spans a no-op.
//!
//! The walk is lazy: constructing an [`EffectIter`] touches nothing, and
//! each call of [`EffectIter::next`] advances the store by exactly one
//! effect. The specification works one identifier at a time
//! ([`apply_id`]); the emitted effects expand to exactly the
//! specification's elementary step sequence, every record is non-empty —
//! so a silent pass returns zero effect records
//! ([`lemma_no_steps_no_records`]) — an insertion record always carries its
//! whole contiguous newly visible run (the run provably does not continue
//! past it), and consecutive pending deletion records never share a
//! position.

use vstd::prelude::*;

use crate::ids::IdSpan;
use crate::store::{
    del_chars, del_range, del_targets_integrated, expand_del, fire_targets, has_elem, has_op,
    is_ins_op, lemma_elem_idx_unique, lemma_expand_del_snoc, lemma_wf_same_ids, op_client,
    op_covers, op_idx, op_wf, set_cur_step, Effect, EffectStep, Elem, OpRec, Tracker,
};

verus! {

/// The store state and elementary effect sequence produced by part of a
/// pass.
pub struct StepRes {
    pub elems: Seq<Elem>,
    pub fired: Seq<bool>,
    pub units: Seq<EffectStep>,
}

/// Processing one target identifier. An identifier covered by no operation
/// contributes nothing. One covered by an insertion marks that one element
/// current. One covered by a not-yet-fired delete operation fires the whole
/// operation: every one of its targets is marked deleted once more; later
/// identifiers of the same operation then find it fired and contribute
/// nothing.
pub open spec fn apply_id(
    es: Seq<Elem>,
    ops: Seq<OpRec>,
    fired: Seq<bool>,
    client: u64,
    c: int,
) -> StepRes {
    if !has_op(ops, client, c) {
        StepRes { elems: es, fired, units: Seq::<EffectStep>::empty() }
    } else {
        let oi = op_idx(ops, client, c);
        match ops[oi] {
            OpRec::Ins { span } => {
                let r = set_cur_step(es, client, c);
                StepRes { elems: r.0, fired, units: r.1 }
            },
            OpRec::Del { targets, .. } => {
                if fired[oi] {
                    StepRes { elems: es, fired, units: Seq::<EffectStep>::empty() }
                } else {
                    let r = fire_targets(es, targets@);
                    StepRes { elems: r.0, fired: fired.update(oi, true), units: r.1 }
                }
            },
        }
    }
}

/// Folding [`apply_id`] over the counter range `[lo, hi)` of one client.
pub open spec fn apply_span(
    es: Seq<Elem>,
    ops: Seq<OpRec>,
    fired: Seq<bool>,
    client: u64,
    lo: int,
    hi: int,
) -> StepRes
    decreases hi - lo,
{
    if lo >= hi {
        StepRes { elems: es, fired, units: Seq::<EffectStep>::empty() }
    } else {
        let s1 = apply_id(es, ops, fired, client, lo);
        let s2 = apply_span(s1.elems, ops, s1.fired, client, lo + 1, hi);
        StepRes { elems: s2.elems, fired: s2.fired, units: s1.units + s2.units }
    }
}

/// Folding [`apply_span`] over a list of target spans, in order.
pub open spec fn apply_targets(
    es: Seq<Elem>,
    ops: Seq<OpRec>,
    fired: Seq<bool>,
    ts: Seq<IdSpan>,
) -> StepRes
    decreases ts.len(),
{
    if ts.len() == 0 {
        StepRes { elems: es, fired, units: Seq::<EffectStep>::empty() }
    } else {
        let s1 = apply_span(es, ops, fired, ts[0].client, ts[0].start as int, ts[0].end as int);
        let s2 = apply_targets(s1.elems, ops, s1.fired, ts.drop_first());
        StepRes { elems: s2.elems, fired: s2.fired, units: s1.units + s2.units }
    }
}

/// A coalesced effect expands into one elementary step per character:
/// inserting a run puts each byte right after its predecessor; deleting a
/// run deletes at the same position, length many times.
pub open spec fn expand_effect(e: Effect) -> Seq<EffectStep> {
    match e {
        Effect::Del { pos, len } => del_chars(pos as int, len as int),
        Effect::Ins { pos, content } => Seq::new(
            content@.len(),
            |k: int| EffectStep::AddChar { pos: pos + k, byte: content@[k] },
        ),
    }
}

pub open spec fn expand_effects(es: Seq<Effect>) -> Seq<EffectStep>
    decreases es.len(),
{
    if es.len() == 0 {
        Seq::<EffectStep>::empty()
    } else {
        expand_effect(es[0]) + expand_effects(es.drop_first())
    }
}

pub proof fn lemma_expand_effects_snoc(es: Seq<Effect>, x: Effect)
    ensures
        expand_effects(es.push(x)) == expand_effects(es) + expand_effect(x),
    decreases es.len(),
{
    if es.len() == 0 {
        assert(es.push(x)[0] == x);
        assert(es.push(x).drop_first() =~= Seq::<Effect>::empty());
        assert(expand_effects(es.push(x)) == expand_effect(x) + expand_effects(
            Seq::<Effect>::empty(),
        ));
        assert(expand_effect(x) + Seq::<EffectStep>::empty() =~= expand_effect(x));
        assert(expand_effects(es) + expand_effect(x) =~= expand_effect(x));
    } else {
        assert(es.push(x)[0] == es[0]);
        assert(es.push(x).drop_first() =~= es.drop_first().push(x));
        lemma_expand_effects_snoc(es.drop_first(), x);
        assert((expand_effect(es[0]) + expand_effects(es.drop_first())) + expand_effect(x)
            =~= expand_effect(es[0]) + (expand_effects(es.drop_first()) + expand_effect(x)));
    }
}

/// A coalesced effect record, as the specification sees it.
pub enum EffectRec {
    Del { pos: int, len: int },
    Ins { pos: int, content: Seq<u8> },
}

pub open spec fn effect_view(e: Effect) -> EffectRec {
    match e {
        Effect::Del { pos, len } => EffectRec::Del { pos: pos as int, len: len as int },
        Effect::Ins { pos, content } => EffectRec::Ins { pos: pos as int, content: content@ },
    }
}

/// A well-formed record: it stands for at least one elementary step.
pub open spec fn rec_wf(r: EffectRec) -> bool {
    match r {
        EffectRec::Del { pos, len } => len >= 1,
        EffectRec::Ins { pos, content } => content.len() >= 1,
    }
}

/// A record and its specification view expand identically.
pub proof fn lemma_expand_effect_view(e: Effect)
    ensures
        expand_effect(e) == expand_rec(effect_view(e)),
{
    match e {
        Effect::Del { pos, len } => {
            assert(expand_effect(e) =~= expand_rec(effect_view(e)));
        },
        Effect::Ins { pos, content } => {
            assert(expand_effect(e) =~= expand_rec(effect_view(e)));
        },
    }
}

/// An effect list of well-formed records whose expansion is empty is
/// itself empty: a silent pass returns zero effect records.
pub proof fn lemma_no_steps_no_records(es: Seq<Effect>)
    requires
        expand_effects(es) == Seq::<EffectStep>::empty(),
        forall|k: int| 0 <= k < es.len() ==> rec_wf(effect_view(#[trigger] es[k])),
    ensures
        es == Seq::<Effect>::empty(),
{
    if es.len() > 0 {
        lemma_expand_effect_view(es[0]);
        assert(rec_wf(effect_view(es[0])));
        assert(expand_rec(effect_view(es[0])).len() >= 1) by {
            match effect_view(es[0]) {
                EffectRec::Del { pos, len } => {
                    assert(del_chars(pos, len).len() == len);
                },
                EffectRec::Ins { pos, content } => {},
            }
        }
        assert(expand_effects(es).len() >= expand_effect(es[0]).len());
        assert(false);
    }
    assert(es =~= Seq::<Effect>::empty());
}

/// The expansion of a record.
pub open spec fn expand_rec(r: EffectRec) -> Seq<EffectStep> {
    match r {
        EffectRec::Del { pos, len } => del_chars(pos, len),
        EffectRec::Ins { pos, content } => Seq::new(
            content.len(),
            |k: int| EffectStep::AddChar { pos: pos + k, byte: content[k] },
        ),
    }
}

/// Expansion of one optionally returned effect.
pub open spec fn expand_opt(r: Option<Effect>) -> Seq<EffectStep> {
    match r {
        Option::None => Seq::<EffectStep>::empty(),
        Option::Some(e) => expand_effect(e),
    }
}

/// The identifier `(client, c)` would seamlessly continue a visible
/// insertion run whose content currently ends at position `pos + len`: it
/// is covered by an insertion, its element exists, is not yet current,
/// carries no delete, and sits exactly at the run's end.
pub open spec fn run_continues(t: Tracker, client: u64, c: int, pos: int, len: int) -> bool {
    &&& has_op(t.ops@, client, c)
    &&& is_ins_op(t.ops@[op_idx(t.ops@, client, c)])
    &&& has_elem(t.elems@, client, c)
    &&& !t.elems@[crate::store::elem_idx(t.elems@, client, c)].cur
    &&& t.elems@[crate::store::elem_idx(t.elems@, client, c)].dels == 0
    &&& crate::store::vis_count(
        t.elems@,
        crate::store::elem_idx(t.elems@, client, c),
    ) == pos + len
}

/// A lazy, single-use walk of a target set against a [`Tracker`]. Creating
/// the iterator mutates nothing: the store advances and effects appear only
/// as [`Self::next`] is called, one effect per call. A partially drained
/// walk may be abandoned at any point; restarting is a fresh iterator over
/// the original target set, which replays nothing already drained (the
/// drained operations are settled) and produces exactly what is still
/// owed.
pub struct EffectIter {
    pub targets: Vec<IdSpan>,
    pub ti: usize,
    pub cur: i32,
    /// Newly invisible regions of a fired delete operation, already applied
    /// to the store and waiting to be handed out.
    pub dq: Vec<(usize, usize)>,
}

impl EffectIter {
    /// The target spans still to be walked: the unprocessed tail of the
    /// current span, then the remaining spans.
    pub open spec fn rem(self) -> Seq<IdSpan> {
        if self.ti < self.targets@.len() {
            seq![
                IdSpan {
                    client: self.targets@[self.ti as int].client,
                    start: self.cur,
                    end: self.targets@[self.ti as int].end,
                },
            ] + self.targets@.skip(self.ti + 1)
        } else {
            Seq::<IdSpan>::empty()
        }
    }

    /// Consistency of the iterator's progress markers with the store, and
    /// non-emptiness of every pending region.
    pub open spec fn inv(self, t: Tracker) -> bool {
        &&& t.wf()
        &&& (forall|j: int| 0 <= j < self.targets@.len() ==> (#[trigger] self.targets@[j]).wf())
        &&& self.ti <= self.targets@.len()
        &&& (self.ti < self.targets@.len() ==> self.targets@[self.ti as int].start <= self.cur
            <= self.targets@[self.ti as int].end)
        &&& (forall|k: int| 0 <= k < self.dq@.len() ==> (#[trigger] self.dq@[k]).1 >= 1)
        &&& (forall|k: int|
            0 <= k < self.dq@.len() - 1 ==> (#[trigger] self.dq@[k]).0 != self.dq@[k + 1].0)
    }

    /// The elementary steps this walk still owes: the pending regions of a
    /// fired delete (already applied to the store), then the steps of the
    /// remaining spans.
    pub open spec fn outstanding(self, t: Tracker) -> Seq<EffectStep> {
        expand_del(self.dq@) + apply_targets(t.elems@, t.ops@, t.fired@, self.rem()).units
    }

    /// Prepares a walk of `target`. The tracker is borrowed only to state
    /// consistency: nothing is mutated and no effect is produced until
    /// [`Self::next`] runs.
    pub fn new(tracker: &Tracker, target: Vec<IdSpan>) -> (r: EffectIter)
        requires
            tracker.wf(),
            forall|j: int| 0 <= j < target@.len() ==> (#[trigger] target@[j]).wf(),
        ensures
            r.inv(*tracker),
            r.rem() == target@,
            r.dq@.len() == 0,
            r.outstanding(*tracker) == apply_targets(
                tracker.elems@,
                tracker.ops@,
                tracker.fired@,
                target@,
            ).units,
    {
        let start: i32 = if target.len() > 0 {
            target[0].start
        } else {
            0
        };
        let r = EffectIter { targets: target, ti: 0, cur: start, dq: Vec::new() };
        proof {
            assert(r.rem() =~= r.targets@);
            assert(expand_del(r.dq@) =~= Seq::<EffectStep>::empty());
            assert(r.outstanding(*tracker) =~= apply_targets(
                tracker.elems@,
                tracker.ops@,
                tracker.fired@,
                r.targets@,
            ).units);
        }
        r
    }

    /// Advances the walk to its next effect. The store is mutated exactly
    /// as far as the returned effect reaches: the elementary steps still
    /// owed shrink by precisely the returned record's expansion, the pass's
    /// eventual final state is unchanged, and `None` means the walk is
    /// complete and owes nothing.
    #[verifier::rlimit(100)]
    pub fn next(&mut self, t: &mut Tracker) -> (r: Option<Effect>)
        requires
            old(self).inv(*old(t)),
        ensures
            final(self).inv(*final(t)),
            final(t).ops@ == old(t).ops@,
            apply_targets(
                final(t).elems@,
                final(t).ops@,
                final(t).fired@,
                final(self).rem(),
            ).elems == apply_targets(
                old(t).elems@,
                old(t).ops@,
                old(t).fired@,
                old(self).rem(),
            ).elems,
            apply_targets(
                final(t).elems@,
                final(t).ops@,
                final(t).fired@,
                final(self).rem(),
            ).fired == apply_targets(
                old(t).elems@,
                old(t).ops@,
                old(t).fired@,
                old(self).rem(),
            ).fired,
            old(self).outstanding(*old(t)) == expand_opt(r) + final(self).outstanding(*final(t)),
            match r {
                Option::Some(e) => rec_wf(effect_view(e)) && final(self).outstanding(
                    *final(t),
                ).len() < old(self).outstanding(*old(t)).len() && (e matches Effect::Ins {
                    pos,
                    content,
                } ==> (final(self).ti < final(self).targets@.len() && final(self).cur
                    < final(self).targets@[final(self).ti as int].end ==> !run_continues(
                    *final(t),
                    final(self).targets@[final(self).ti as int].client,
                    final(self).cur as int,
                    pos as int,
                    content@.len() as int,
                ))) && (e matches Effect::Del { pos, len } ==> (final(self).dq@.len() == 0
                    || final(self).dq@[0].0 != pos)),
                Option::None => final(self).outstanding(*final(t)) == Seq::<EffectStep>::empty()
                    && final(self).rem() == Seq::<IdSpan>::empty() && final(self).dq@.len() == 0,
            },
    {
        loop
            invariant
                self.inv(*t),
                t.ops@ == old(t).ops@,
                apply_targets(t.elems@, t.ops@, t.fired@, self.rem()).elems == apply_targets(
                    old(t).elems@,
                    old(t).ops@,
                    old(t).fired@,
                    old(self).rem(),
                ).elems,
                apply_targets(t.elems@, t.ops@, t.fired@, self.rem()).fired == apply_targets(
                    old(t).elems@,
                    old(t).ops@,
                    old(t).fired@,
                    old(self).rem(),
                ).fired,
                old(self).outstanding(*old(t)) == self.outstanding(*t),
            decreases crate::store::spans_total_len(self.rem()) + self.targets@.len() - self.ti,
        {
            proof {
                assert forall|j: int| 0 <= j < self.rem().len() implies (
                #[trigger] self.rem()[j]).wf() by {
                    if j > 0 {
                        assert(self.rem()[j] == self.targets@.skip(self.ti + 1)[j - 1]);
                        assert(self.targets@.skip(self.ti + 1)[j - 1] == self.targets@[self.ti + j]);
                        assert(self.targets@[self.ti + j].wf());
                    } else {
                        assert(self.targets@[self.ti as int].wf());
                    }
                }
                crate::store::lemma_spans_total_nonneg(self.rem());
            }
            let ghost m0 = crate::store::spans_total_len(self.rem());
            let ghost ti0 = self.ti as int;
            if self.dq.len() > 0 {
                let ghost dq0 = self.dq@;
                let reg = self.dq.remove(0);
                proof {
                    assert(self.dq@ =~= dq0.drop_first());
                    assert(reg == dq0[0]);
                    assert forall|k2: int|
                        0 <= k2 < self.dq@.len() - 1 implies (#[trigger] self.dq@[k2]).0
                        != self.dq@[k2 + 1].0 by {
                        assert(self.dq@[k2] == dq0[k2 + 1] && self.dq@[k2 + 1] == dq0[k2 + 2]);
                    }
                    if self.dq@.len() > 0 {
                        assert(self.dq@[0] == dq0[1]);
                        assert(dq0[0].0 != dq0[1].0);
                    }
                    assert(expand_del(dq0) == del_chars(reg.0 as int, reg.1 as int) + expand_del(
                        self.dq@,
                    ));
                    assert(expand_effect(Effect::Del { pos: reg.0, len: reg.1 }) =~= del_chars(
                        reg.0 as int,
                        reg.1 as int,
                    ));
                    assert(del_chars(reg.0 as int, reg.1 as int).len() == reg.1);
                    assert((expand_del(dq0) + apply_targets(
                        t.elems@,
                        t.ops@,
                        t.fired@,
                        self.rem(),
                    ).units) =~= del_chars(reg.0 as int, reg.1 as int) + (expand_del(self.dq@)
                        + apply_targets(t.elems@, t.ops@, t.fired@, self.rem()).units));
                }
                return Some(Effect::Del { pos: reg.0, len: reg.1 });
            }
            if self.ti >= self.targets.len() {
                proof {
                    assert(self.rem() =~= Seq::<IdSpan>::empty());
                    assert(expand_del(self.dq@) =~= Seq::<EffectStep>::empty());
                    assert(self.outstanding(*t) =~= Seq::<EffectStep>::empty());
                }
                return None;
            }
            let sp = self.targets[self.ti];
            let ghost rest = self.targets@.skip(self.ti + 1);
            proof {
                assert(self.rem()[0] == (IdSpan { client: sp.client, start: self.cur, end: sp.end }));
                assert(self.rem().drop_first() =~= rest);
            }
            if self.cur >= sp.end {
                let ghost pre = *self;
                self.ti += 1;
                if self.ti < self.targets.len() {
                    self.cur = self.targets[self.ti].start;
                }
                proof {
                    assert(apply_span(
                        t.elems@,
                        t.ops@,
                        t.fired@,
                        sp.client,
                        pre.cur as int,
                        sp.end as int,
                    ) == (StepRes {
                        elems: t.elems@,
                        fired: t.fired@,
                        units: Seq::<EffectStep>::empty(),
                    }));
                    assert(self.rem() =~= rest);
                    assert(Seq::<EffectStep>::empty() + apply_targets(
                        t.elems@,
                        t.ops@,
                        t.fired@,
                        rest,
                    ).units =~= apply_targets(t.elems@, t.ops@, t.fired@, rest).units);
                    assert(crate::store::spans_total_len(pre.rem()) == crate::store::spans_total_len(
                        rest,
                    ));
                    assert(crate::store::spans_total_len(self.rem()) == m0 && self.ti > ti0);
                }
                continue ;
            }
            let c = self.cur;
            let ghost t0 = *t;
            let ghost step = apply_id(t.elems@, t.ops@, t.fired@, sp.client, c as int);
            proof {
                assert(apply_span(t.elems@, t.ops@, t.fired@, sp.client, c as int, sp.end as int)
                    == (StepRes {
                    elems: apply_span(
                        step.elems,
                        t.ops@,
                        step.fired,
                        sp.client,
                        c + 1,
                        sp.end as int,
                    ).elems,
                    fired: apply_span(
                        step.elems,
                        t.ops@,
                        step.fired,
                        sp.client,
                        c + 1,
                        sp.end as int,
                    ).fired,
                    units: step.units + apply_span(
                        step.elems,
                        t.ops@,
                        step.fired,
                        sp.client,
                        c + 1,
                        sp.end as int,
                    ).units,
                }));
                assert(crate::store::spans_total_len(self.rem()) == (sp.end - c)
                    + crate::store::spans_total_len(rest));
            }
            match t.find_op(sp.client, c) {
                None => {
                    proof {
                        assert(step.elems == t.elems@ && step.fired == t.fired@ && step.units
                            =~= Seq::<EffectStep>::empty());
                    }
                    self.cur = c + 1;
                    proof {
                        assert(self.rem()[0] == (IdSpan {
                            client: sp.client,
                            start: (c + 1) as i32,
                            end: sp.end,
                        }));
                        assert(self.rem().drop_first() =~= rest);
                        assert(step.units + apply_span(
                            step.elems,
                            t.ops@,
                            step.fired,
                            sp.client,
                            c + 1,
                            sp.end as int,
                        ).units =~= apply_span(
                            step.elems,
                            t.ops@,
                            step.fired,
                            sp.client,
                            c + 1,
                            sp.end as int,
                        ).units);
                        assert(crate::store::spans_total_len(self.rem()) == (sp.end - c - 1)
                            + crate::store::spans_total_len(rest));
                        assert(crate::store::spans_total_len(self.rem()) < m0);
                    }
                },
                Some(oi) => {
                    let is_ins = matches!(&t.ops[oi], OpRec::Ins { .. });
                    if is_ins {
                        let i = match t.find_elem(sp.client, c) {
                            Some(i) => i,
                            None => {
                                proof {
                                    assert(op_covers(
                                        t.ops@[oi as int],
                                        op_client(t.ops@[oi as int]),
                                        c as int,
                                    ));
                                    assert(false);
                                }
                                return None;
                            },
                        };
                        let e = t.elems[i];
                        proof {
                            lemma_elem_idx_unique(t.elems@, i as int, sp.client, c as int);
                        }
                        if e.cur || e.dels != 0 {
                            if !e.cur {
                                let ne = Elem { cur: true, ..e };
                                t.elems.set(i, ne);
                                proof {
                                    assert(step.elems == t.elems@);
                                    assert(step.fired == t.fired@);
                                    lemma_wf_same_ids(t0, *t);
                                }
                            }
                            proof {
                                assert(step.elems == t.elems@ && step.fired == t.fired@
                                    && step.units =~= Seq::<EffectStep>::empty());
                            }
                            self.cur = c + 1;
                            proof {
                                assert(self.rem()[0] == (IdSpan {
                                    client: sp.client,
                                    start: (c + 1) as i32,
                                    end: sp.end,
                                }));
                                assert(self.rem().drop_first() =~= rest);
                                assert(step.units + apply_span(
                                    step.elems,
                                    t.ops@,
                                    step.fired,
                                    sp.client,
                                    c + 1,
                                    sp.end as int,
                                ).units =~= apply_span(
                                    step.elems,
                                    t.ops@,
                                    step.fired,
                                    sp.client,
                                    c + 1,
                                    sp.end as int,
                                ).units);
                                assert(crate::store::spans_total_len(self.rem()) == (sp.end - c
                                    - 1) + crate::store::spans_total_len(rest));
                                assert(crate::store::spans_total_len(self.rem()) < m0);
                            }
                        } else {
                            // A newly visible insertion: start an effect and
                            // grow it while the following identifiers
                            // continue the same visible run.
                            let ghost orig_outstanding = old(self).outstanding(*old(t));
                            let pos = t.visible_before(i);
                            let ne = Elem { cur: true, ..e };
                            t.elems.set(i, ne);
                            proof {
                                assert(step.elems == t.elems@);
                                assert(step.fired == t.fired@);
                                lemma_wf_same_ids(t0, *t);
                                assert(step.units =~= seq![
                                    EffectStep::AddChar { pos: pos as int, byte: e.byte },
                                ]);
                            }
                            let mut content: Vec<u8> = Vec::new();
                            content.push(e.byte);
                            self.cur = c + 1;
                            proof {
                                assert(ins_units(pos as int, content@) =~= step.units);
                                assert(self.rem()[0] == (IdSpan {
                                    client: sp.client,
                                    start: (c + 1) as i32,
                                    end: sp.end,
                                }));
                                assert(self.rem().drop_first() =~= rest);
                            }
                            loop
                                invariant
                                    sp.wf(),
                                    sp.start <= self.cur <= sp.end,
                                    self.ti < self.targets@.len(),
                                    self.targets@[self.ti as int] == sp,
                                    self.dq@.len() == 0,
                                    self.inv(*t),
                                    t.ops@ == old(t).ops@,
                                    content@.len() >= 1,
                                    rest == self.targets@.skip(self.ti + 1),
                                    apply_targets(t.elems@, t.ops@, t.fired@, self.rem()).elems
                                        == apply_targets(
                                        old(t).elems@,
                                        old(t).ops@,
                                        old(t).fired@,
                                        old(self).rem(),
                                    ).elems,
                                    apply_targets(t.elems@, t.ops@, t.fired@, self.rem()).fired
                                        == apply_targets(
                                        old(t).elems@,
                                        old(t).ops@,
                                        old(t).fired@,
                                        old(self).rem(),
                                    ).fired,
                                    orig_outstanding == old(self).outstanding(*old(t)),
                                    orig_outstanding == ins_units(pos as int, content@)
                                        + self.outstanding(*t),
                                ensures
                                    self.cur == sp.end || !run_continues(
                                        *t,
                                        sp.client,
                                        self.cur as int,
                                        pos as int,
                                        content@.len() as int,
                                    ),
                                decreases sp.end - self.cur,
                            {
                                if self.cur >= sp.end {
                                    break ;
                                }
                                let c2 = self.cur;
                                let ghost t1 = *t;
                                let ghost step2 = apply_id(
                                    t.elems@,
                                    t.ops@,
                                    t.fired@,
                                    sp.client,
                                    c2 as int,
                                );
                                proof {
                                    assert(self.rem()[0] == (IdSpan {
                                        client: sp.client,
                                        start: c2,
                                        end: sp.end,
                                    }));
                                    assert(self.rem().drop_first() =~= rest);
                                    assert(apply_span(
                                        t.elems@,
                                        t.ops@,
                                        t.fired@,
                                        sp.client,
                                        c2 as int,
                                        sp.end as int,
                                    ) == (StepRes {
                                        elems: apply_span(
                                            step2.elems,
                                            t.ops@,
                                            step2.fired,
                                            sp.client,
                                            c2 + 1,
                                            sp.end as int,
                                        ).elems,
                                        fired: apply_span(
                                            step2.elems,
                                            t.ops@,
                                            step2.fired,
                                            sp.client,
                                            c2 + 1,
                                            sp.end as int,
                                        ).fired,
                                        units: step2.units + apply_span(
                                            step2.elems,
                                            t.ops@,
                                            step2.fired,
                                            sp.client,
                                            c2 + 1,
                                            sp.end as int,
                                        ).units,
                                    }));
                                }
                                let oi2 = match t.find_op(sp.client, c2) {
                                    Some(oi2) => oi2,
                                    None => {
                                        proof {
                                            assert(!has_op(t.ops@, sp.client, c2 as int));
                                        }
                                        break ;
                                    },
                                };
                                if !matches!(&t.ops[oi2], OpRec::Ins { .. }) {
                                    proof {
                                        assert(!is_ins_op(
                                            t.ops@[op_idx(t.ops@, sp.client, c2 as int)],
                                        ));
                                    }
                                    break ;
                                }
                                let j = match t.find_elem(sp.client, c2) {
                                    Some(j) => j,
                                    None => {
                                        proof {
                                            assert(op_covers(
                                                t.ops@[oi2 as int],
                                                op_client(t.ops@[oi2 as int]),
                                                c2 as int,
                                            ));
                                            assert(false);
                                        }
                                        break ;
                                    },
                                };
                                let e2 = t.elems[j];
                                proof {
                                    lemma_elem_idx_unique(t.elems@, j as int, sp.client, c2 as int);
                                }
                                if e2.cur || e2.dels != 0 {
                                    break ;
                                }
                                let vb = t.visible_before(j);
                                if !(vb >= pos && vb - pos == content.len()) {
                                    proof {
                                        assert(crate::store::vis_count(t.elems@, j as int) != pos
                                            + content@.len());
                                    }
                                    break ;
                                }
                                // The next identifier continues the run:
                                // make it current and extend the record.
                                let ne2 = Elem { cur: true, ..e2 };
                                t.elems.set(j, ne2);
                                proof {
                                    assert(step2.elems == t.elems@);
                                    assert(step2.fired == t.fired@);
                                    lemma_wf_same_ids(t1, *t);
                                    assert(step2.units =~= seq![
                                        EffectStep::AddChar { pos: vb as int, byte: e2.byte },
                                    ]);
                                }
                                let ghost ob = content@;
                                content.push(e2.byte);
                                self.cur = c2 + 1;
                                proof {
                                    assert(ins_units(pos as int, content@) =~= ins_units(
                                        pos as int,
                                        ob,
                                    ) + step2.units);
                                    assert(self.rem()[0] == (IdSpan {
                                        client: sp.client,
                                        start: (c2 + 1) as i32,
                                        end: sp.end,
                                    }));
                                    assert(self.rem().drop_first() =~= rest);
                                    assert((ins_units(pos as int, ob) + step2.units) + (expand_del(
                                        self.dq@,
                                    ) + apply_targets(
                                        t.elems@,
                                        t.ops@,
                                        t.fired@,
                                        self.rem(),
                                    ).units) =~= ins_units(pos as int, ob) + (step2.units + (
                                    expand_del(self.dq@) + apply_targets(
                                        t.elems@,
                                        t.ops@,
                                        t.fired@,
                                        self.rem(),
                                    ).units)));
                                    assert(step2.units + (expand_del(self.dq@) + apply_targets(
                                        t.elems@,
                                        t.ops@,
                                        t.fired@,
                                        self.rem(),
                                    ).units) =~= expand_del(self.dq@) + (step2.units
                                        + apply_targets(
                                        t.elems@,
                                        t.ops@,
                                        t.fired@,
                                        self.rem(),
                                    ).units));
                                }
                            }
                            proof {
                                assert(expand_effect(Effect::Ins { pos, content }) =~= ins_units(
                                    pos as int,
                                    content@,
                                ));
                            }
                            return Some(Effect::Ins { pos, content });
                        }
                    } else {
                        // A delete operation: if not yet fired, apply all
                        // its targets now and queue the newly invisible
                        // regions.
                        let already = t.fired[oi];
                        if already {
                            proof {
                                assert(step.elems == t.elems@ && step.fired == t.fired@
                                    && step.units =~= Seq::<EffectStep>::empty());
                            }
                            self.cur = c + 1;
                            proof {
                                assert(self.rem()[0] == (IdSpan {
                                    client: sp.client,
                                    start: (c + 1) as i32,
                                    end: sp.end,
                                }));
                                assert(self.rem().drop_first() =~= rest);
                                assert(step.units + apply_span(
                                    step.elems,
                                    t.ops@,
                                    step.fired,
                                    sp.client,
                                    c + 1,
                                    sp.end as int,
                                ).units =~= apply_span(
                                    step.elems,
                                    t.ops@,
                                    step.fired,
                                    sp.client,
                                    c + 1,
                                    sp.end as int,
                                ).units);
                                assert(crate::store::spans_total_len(self.rem()) == (sp.end - c
                                    - 1) + crate::store::spans_total_len(rest));
                                assert(crate::store::spans_total_len(self.rem()) < m0);
                            }
                        } else {
                            t.fired.set(oi, true);
                            proof {
                                assert(t.fired@ == step.fired);
                                lemma_wf_same_ids(t0, *t);
                            }
                            let pair = match &t.ops[oi] {
                                OpRec::Del { targets, len, .. } => (targets.len(), *len),
                                OpRec::Ins { .. } => (0, 0),
                            };
                            let tn = pair.0;
                            let oplen = pair.1;
                            let ghost ts = del_targets_of(t.ops@[oi as int]);
                            proof {
                                assert(ts.skip(0) =~= ts);
                                assert(step.elems == fire_targets(t0.elems@, ts).0);
                                assert(step.units == fire_targets(t0.elems@, ts).1);
                                assert(op_wf(t.ops@[oi as int]));
                                assert(oplen == crate::store::spans_total_len(ts));
                                assert(oplen <= i32::MAX);
                                assert(ts.take(0) =~= Seq::<IdSpan>::empty());
                                assert(expand_del(self.dq@) =~= Seq::<EffectStep>::empty());
                            }
                            let mut k: usize = 0;
                            while k < tn
                                invariant
                                    k <= tn,
                                    t.wf(),
                                    t.ops@ == old(t).ops@,
                                    oi < t.ops@.len(),
                                    !is_ins_op(t.ops@[oi as int]),
                                    ts == del_targets_of(t.ops@[oi as int]),
                                    tn == ts.len(),
                                    sp.wf(),
                                    sp.start <= c < sp.end,
                                    self.ti < self.targets@.len(),
                                    self.targets@[self.ti as int] == sp,
                                    self.cur == c,
                                    forall|k2: int|
                                        0 <= k2 < self.dq@.len() ==> (#[trigger] self.dq@[k2]).1
                                            >= 1,
                                    forall|k2: int|
                                        0 <= k2 < self.dq@.len() - 1 ==> (
                                        #[trigger] self.dq@[k2]).0 != self.dq@[k2 + 1].0,
                                    forall|k2: int|
                                        0 <= k2 < self.dq@.len() ==> (#[trigger] self.dq@[k2]).1
                                            <= expand_del(self.dq@).len(),
                                    expand_del(self.dq@).len() <= crate::store::spans_total_len(
                                        ts.take(k as int),
                                    ),
                                    oplen == crate::store::spans_total_len(ts),
                                    oplen <= i32::MAX,
                                    forall|j2: int|
                                        0 <= j2 < self.targets@.len() ==> (
                                        #[trigger] self.targets@[j2]).wf(),
                                    rest == self.targets@.skip(self.ti + 1),
                                    fire_rest(
                                        *t,
                                        ts.skip(k as int),
                                        sp.client,
                                        c + 1,
                                        sp.end as int,
                                        rest,
                                    ).elems == apply_targets(
                                        old(t).elems@,
                                        old(t).ops@,
                                        old(t).fired@,
                                        old(self).rem(),
                                    ).elems,
                                    fire_rest(
                                        *t,
                                        ts.skip(k as int),
                                        sp.client,
                                        c + 1,
                                        sp.end as int,
                                        rest,
                                    ).fired == apply_targets(
                                        old(t).elems@,
                                        old(t).ops@,
                                        old(t).fired@,
                                        old(self).rem(),
                                    ).fired,
                                    old(self).outstanding(*old(t)) == expand_del(self.dq@)
                                        + fire_rest(
                                        *t,
                                        ts.skip(k as int),
                                        sp.client,
                                        c + 1,
                                        sp.end as int,
                                        rest,
                                    ).units,
                                decreases tn - k,
                            {
                                let tk = match &t.ops[oi] {
                                    OpRec::Del { targets, .. } => targets[k],
                                    OpRec::Ins { .. } => IdSpan { client: 0, start: 0, end: 0 },
                                };
                                proof {
                                    assert(tk == ts.skip(k as int)[0]);
                                    assert(ts.skip(k as int).drop_first() =~= ts.skip(k + 1));
                                    assert(op_wf(t.ops@[oi as int]));
                                }
                                if tk.start < tk.end {
                                    let ghost te = t.elems@;
                                    let regions = match t.mark_deleted(tk) {
                                        Ok(rs) => rs,
                                        Err(_) => {
                                            proof {
                                                assert(del_targets_integrated(
                                                    t.ops@[oi as int],
                                                    t.elems@,
                                                ));
                                                assert forall|c2: int|
                                                    tk.start <= c2 < tk.end implies has_elem(
                                                    t.elems@,
                                                    tk.client,
                                                    c2,
                                                ) by {
                                                    assert(ts[k as int].covers(tk.client, c2));
                                                }
                                                assert(false);
                                            }
                                            return None;
                                        },
                                    };
                                    let ghost dr = del_range(
                                        te,
                                        tk.client,
                                        tk.start as int,
                                        tk.end as int,
                                    );
                                    let ghost dq0 = self.dq@;
                                    let ghost selfpre = *self;
                                    proof {
                                        crate::store::lemma_del_range_units_len(
                                            te,
                                            tk.client,
                                            tk.start as int,
                                            tk.end as int,
                                        );
                                        crate::store::lemma_spans_total_snoc(ts.take(k as int), tk);
                                        assert(ts.take(k + 1) =~= ts.take(k as int).push(tk));
                                        crate::store::lemma_spans_total_split(ts, k + 1);
                                        assert forall|j2: int|
                                            0 <= j2 < ts.skip(k + 1).len() implies (
                                            #[trigger] ts.skip(k + 1)[j2]).wf() by {
                                            assert(ts.skip(k + 1)[j2] == ts[k + 1 + j2]);
                                        }
                                        crate::store::lemma_spans_total_nonneg(ts.skip(k + 1));
                                        assert(crate::store::spans_total_len(ts.take(k + 1))
                                            <= oplen);
                                    }
                                    let mut m: usize = 0;
                                    while m < regions.len()
                                        invariant
                                            m <= regions@.len(),
                                            crate::store::regions_canonical(regions@),
                                            self.targets@ == selfpre.targets@,
                                            self.ti == selfpre.ti,
                                            self.cur == selfpre.cur,
                                            oplen <= i32::MAX,
                                            expand_del(regions@) == dr.1,
                                            dr.1.len() <= tk.spec_len(),
                                            expand_del(dq0).len()
                                                <= crate::store::spans_total_len(ts.take(k as int)),
                                            crate::store::spans_total_len(ts.take(k as int))
                                                + tk.spec_len() <= oplen,
                                            forall|k2: int|
                                                0 <= k2 < self.dq@.len() ==> (
                                                #[trigger] self.dq@[k2]).1 >= 1,
                                            forall|k2: int|
                                                0 <= k2 < self.dq@.len() - 1 ==> (
                                                #[trigger] self.dq@[k2]).0 != self.dq@[k2 + 1].0,
                                            forall|k2: int|
                                                0 <= k2 < self.dq@.len() ==> (
                                                #[trigger] self.dq@[k2]).1 <= expand_del(
                                                    self.dq@,
                                                ).len(),
                                            expand_del(self.dq@) == expand_del(dq0) + expand_del(
                                                regions@.take(m as int),
                                            ),
                                        decreases regions@.len() - m,
                                    {
                                        let pr = regions[m];
                                        let ghost dqpre = self.dq@;
                                        proof {
                                            lemma_expand_del_snoc(regions@.take(m as int), pr);
                                            assert(regions@.take(m + 1) =~= regions@.take(
                                                m as int,
                                            ).push(pr));
                                            assert(del_chars(pr.0 as int, pr.1 as int).len()
                                                == pr.1);
                                            crate::store::lemma_expand_del_split(regions@, m + 1);
                                            assert(expand_del(regions@.take(m + 1)).len()
                                                <= dr.1.len());
                                            assert(expand_del(dqpre).len() + pr.1 <= oplen);
                                        }
                                        let n_dq = self.dq.len();
                                        if n_dq > 0 && {
                                            let lp = self.dq[n_dq - 1].0;
                                            lp == pr.0
                                        } {
                                            let lastr = self.dq[n_dq - 1];
                                            proof {
                                                assert(lastr.1 <= expand_del(dqpre).len());
                                                assert(lastr.1 + pr.1 <= oplen);
                                            }
                                            self.dq.set(n_dq - 1, (lastr.0, lastr.1 + pr.1));
                                            proof {
                                                assert(dqpre =~= dqpre.drop_last().push(lastr));
                                                assert(self.dq@ =~= dqpre.drop_last().push(
                                                    (lastr.0, (lastr.1 + pr.1) as usize),
                                                ));
                                                lemma_expand_del_snoc(dqpre.drop_last(), lastr);
                                                lemma_expand_del_snoc(
                                                    dqpre.drop_last(),
                                                    (lastr.0, (lastr.1 + pr.1) as usize),
                                                );
                                                assert(del_chars(
                                                    lastr.0 as int,
                                                    (lastr.1 + pr.1) as int,
                                                ) =~= del_chars(lastr.0 as int, lastr.1 as int)
                                                    + del_chars(pr.0 as int, pr.1 as int));
                                                assert((expand_del(dqpre.drop_last()) + del_chars(
                                                    lastr.0 as int,
                                                    lastr.1 as int,
                                                )) + del_chars(pr.0 as int, pr.1 as int)
                                                    =~= expand_del(dqpre.drop_last()) + (del_chars(
                                                    lastr.0 as int,
                                                    lastr.1 as int,
                                                ) + del_chars(pr.0 as int, pr.1 as int)));
                                                assert(expand_del(self.dq@) =~= expand_del(dqpre)
                                                    + del_chars(pr.0 as int, pr.1 as int));
                                                assert forall|k2: int|
                                                    0 <= k2 < self.dq@.len() - 1 implies (
                                                    #[trigger] self.dq@[k2]).0 != self.dq@[k2
                                                    + 1].0 by {
                                                    assert(self.dq@[k2].0 == dqpre[k2].0
                                                        && self.dq@[k2 + 1].0 == dqpre[k2 + 1].0);
                                                }
                                                assert forall|k2: int|
                                                    0 <= k2 < self.dq@.len() implies (
                                                    #[trigger] self.dq@[k2]).1 <= expand_del(
                                                        self.dq@,
                                                    ).len() by {
                                                    if k2 < self.dq@.len() - 1 {
                                                        assert(self.dq@[k2] == dqpre[k2]);
                                                        assert(dqpre[k2].1 <= expand_del(
                                                            dqpre,
                                                        ).len());
                                                    }
                                                }
                                            }
                                        } else {
                                            proof {
                                                lemma_expand_del_snoc(self.dq@, pr);
                                            }
                                            self.dq.push(pr);
                                            proof {
                                                assert forall|k2: int|
                                                    0 <= k2 < self.dq@.len() - 1 implies (
                                                    #[trigger] self.dq@[k2]).0 != self.dq@[k2
                                                    + 1].0 by {
                                                    if k2 < dqpre.len() - 1 {
                                                        assert(self.dq@[k2] == dqpre[k2]
                                                            && self.dq@[k2 + 1] == dqpre[k2 + 1]);
                                                    } else {
                                                        assert(self.dq@[k2] == dqpre[k2]
                                                            && self.dq@[k2 + 1] == pr);
                                                    }
                                                }
                                                assert forall|k2: int|
                                                    0 <= k2 < self.dq@.len() implies (
                                                    #[trigger] self.dq@[k2]).1 <= expand_del(
                                                        self.dq@,
                                                    ).len() by {
                                                    if k2 < dqpre.len() {
                                                        assert(self.dq@[k2] == dqpre[k2]);
                                                        assert(dqpre[k2].1 <= expand_del(
                                                            dqpre,
                                                        ).len());
                                                    } else {
                                                        assert(self.dq@[k2] == pr);
                                                    }
                                                }
                                            }
                                        }
                                        m += 1;
                                    }
                                    proof {
                                        assert(regions@.take(regions@.len() as int) =~= regions@);
                                        assert(expand_del(self.dq@) == expand_del(dq0) + dr.1);
                                        assert(expand_del(self.dq@).len()
                                            <= crate::store::spans_total_len(ts.take(k + 1)));
                                    }
                                } else {
                                    proof {
                                        assert(del_range(
                                            t.elems@,
                                            tk.client,
                                            tk.start as int,
                                            tk.end as int,
                                        ).0 == t.elems@);
                                        assert(del_range(
                                            t.elems@,
                                            tk.client,
                                            tk.start as int,
                                            tk.end as int,
                                        ).1 =~= Seq::<EffectStep>::empty());
                                        crate::store::lemma_spans_total_snoc(ts.take(k as int), tk);
                                        assert(ts.take(k + 1) =~= ts.take(k as int).push(tk));
                                        assert(tk.spec_len() == 0);
                                    }
                                }
                                k += 1;
                            }
                            proof {
                                assert(ts.skip(tn as int) =~= Seq::<IdSpan>::empty());
                            }
                            self.cur = c + 1;
                            proof {
                                assert(self.rem()[0] == (IdSpan {
                                    client: sp.client,
                                    start: (c + 1) as i32,
                                    end: sp.end,
                                }));
                                assert(self.rem().drop_first() =~= rest);
                                assert(crate::store::spans_total_len(self.rem()) == (sp.end - c
                                    - 1) + crate::store::spans_total_len(rest));
                                assert(crate::store::spans_total_len(self.rem()) < m0);
                            }
                        }
                    }
                },
            }
        }
    }
}

/// Runs a walk to completion and collects its effects: the convenience
/// batch form of [`EffectIter`]. The store's elements and fired flags
/// afterwards are exactly those of the specification pass, the effects
/// expand to exactly the specification's elementary step sequence, and
/// every record is non-empty.
pub fn collect_effects(tracker: &mut Tracker, target: Vec<IdSpan>) -> (r: Vec<Effect>)
    requires
        old(tracker).wf(),
        forall|j: int| 0 <= j < target@.len() ==> (#[trigger] target@[j]).wf(),
    ensures
        final(tracker).wf(),
        final(tracker).ops@ == old(tracker).ops@,
        final(tracker).elems@ == apply_targets(
            old(tracker).elems@,
            old(tracker).ops@,
            old(tracker).fired@,
            target@,
        ).elems,
        final(tracker).fired@ == apply_targets(
            old(tracker).elems@,
            old(tracker).ops@,
            old(tracker).fired@,
            target@,
        ).fired,
        expand_effects(r@) == apply_targets(
            old(tracker).elems@,
            old(tracker).ops@,
            old(tracker).fired@,
            target@,
        ).units,
        forall|k: int| 0 <= k < r@.len() ==> rec_wf(effect_view(#[trigger] r@[k])),
{
    let ghost total = apply_targets(
        old(tracker).elems@,
        old(tracker).ops@,
        old(tracker).fired@,
        target@,
    );
    let mut it = EffectIter::new(tracker, target);
    let mut out: Vec<Effect> = Vec::new();
    loop
        invariant
            it.inv(*tracker),
            tracker.ops@ == old(tracker).ops@,
            apply_targets(tracker.elems@, tracker.ops@, tracker.fired@, it.rem()).elems
                == total.elems,
            apply_targets(tracker.elems@, tracker.ops@, tracker.fired@, it.rem()).fired
                == total.fired,
            total.units == expand_effects(out@) + it.outstanding(*tracker),
            forall|k: int| 0 <= k < out@.len() ==> rec_wf(effect_view(#[trigger] out@[k])),
        ensures
            it.outstanding(*tracker) == Seq::<EffectStep>::empty(),
            it.rem() == Seq::<IdSpan>::empty(),
        decreases it.outstanding(*tracker).len(),
    {
        let e = match it.next(tracker) {
            Some(e) => e,
            None => {
                break ;
            },
        };
        proof {
            lemma_expand_effects_snoc(out@, e);
            assert(expand_effects(out@) + (expand_effect(e) + it.outstanding(*tracker))
                =~= (expand_effects(out@) + expand_effect(e)) + it.outstanding(*tracker));
        }
        out.push(e);
    }
    proof {
        assert(apply_targets(
            tracker.elems@,
            tracker.ops@,
            tracker.fired@,
            Seq::<IdSpan>::empty(),
        ).elems == tracker.elems@);
        assert(expand_effects(out@) + Seq::<EffectStep>::empty() =~= expand_effects(out@));
    }
    out
}


/// The elementary steps of an insertion run being accumulated.
pub open spec fn ins_units(pos: int, bytes: Seq<u8>) -> Seq<EffectStep> {
    Seq::new(bytes.len(), |k: int| EffectStep::AddChar { pos: pos + k, byte: bytes[k] })
}

/// The target spans of a delete record (empty for an insert record).
pub open spec fn del_targets_of(o: OpRec) -> Seq<IdSpan> {
    match o {
        OpRec::Ins { .. } => Seq::<IdSpan>::empty(),
        OpRec::Del { targets, .. } => targets@,
    }
}

/// What remains of a pass: the rest of the current span, then the remaining
/// target spans.
pub open spec fn pass_rest(t: Tracker, client: u64, c: int, hi: int, rest: Seq<IdSpan>) -> StepRes {
    let s = apply_span(t.elems@, t.ops@, t.fired@, client, c, hi);
    let r = apply_targets(s.elems, t.ops@, s.fired, rest);
    StepRes { elems: r.elems, fired: r.fired, units: s.units + r.units }
}

/// What remains of a pass while a delete operation is being fired: the rest
/// of its targets, then the rest of the current span, then the remaining
/// target spans.
pub open spec fn fire_rest(
    t: Tracker,
    ts: Seq<IdSpan>,
    client: u64,
    c: int,
    hi: int,
    rest: Seq<IdSpan>,
) -> StepRes {
    let f = fire_targets(t.elems@, ts);
    let s = apply_span(f.0, t.ops@, t.fired@, client, c, hi);
    let r = apply_targets(s.elems, t.ops@, s.fired, rest);
    StepRes { elems: r.elems, fired: r.fired, units: f.1 + (s.units + r.units) }
}

} // verus!
