use loro_core::effects::{collect_effects, EffectIter};
use loro_core::frontier::{
    calc_critical_version_agreed, calc_critical_version_bfs, calc_critical_version_dfs,
    FrontierError, OpNode,
};
use loro_core::ids::{IdSpan, ID, SpanError};
use loro_core::store::{Effect, FirstCursor, StatusChange, StoreError, Tracker};

fn span(client: u64, start: i32, end: i32) -> IdSpan {
    IdSpan::new(client, start, end)
}

#[test]
fn span_algebra_basics() {
    let s = span(1, 2, 7);
    assert_eq!(s.len(), 5);
    assert!(!s.is_empty());
    assert!(s.contains_id(ID::new(1, 2)));
    assert!(s.contains_id(ID::new(1, 6)));
    assert!(!s.contains_id(ID::new(1, 7)));
    assert!(!s.contains_id(ID::new(2, 3)));
    assert!(s.contains_span(&span(1, 3, 5)));
    assert!(!s.contains_span(&span(1, 3, 8)));
    assert!(!s.contains_span(&span(2, 3, 5)));
}

#[test]
fn span_intersection() {
    let a = span(1, 0, 5);
    let b = span(1, 3, 9);
    assert_eq!(a.intersect(&b), Some(span(1, 3, 5)));
    assert_eq!(a.intersect(&span(1, 5, 9)), None);
    assert_eq!(a.intersect(&span(2, 0, 5)), None);
}

#[test]
fn span_split_reconstructs() {
    let s = span(4, 10, 16);
    let (left, right) = s.split(2).unwrap();
    assert_eq!(left, span(4, 10, 12));
    assert_eq!(right, span(4, 12, 16));
    assert_eq!(left.len() + right.len(), s.len());
    assert_eq!(s.split(7), Err(SpanError::OutOfRange));
    let (l0, r0) = s.split(0).unwrap();
    assert_eq!(l0.len(), 0);
    assert_eq!(r0, s);
}

#[test]
fn insert_then_pass_emits_once() {
    let mut t = Tracker::new();
    t.integrate_insert(span(1, 0, 5), &b"hello".to_vec(), 0).unwrap();
    // Content is integrated but not yet current: nothing visible.
    assert_eq!(t.visible_content(), b"".to_vec());
    let mut it = EffectIter::new(&t, vec![span(1, 0, 5)]);
    let first = it.next(&mut t);
    assert_eq!(first, Some(Effect::Ins { pos: 0, content: b"hello".to_vec() }));
    assert_eq!(it.next(&mut t), None);
    assert_eq!(t.visible_content(), b"hello".to_vec());
}

#[test]
fn duplicate_integration_is_noop() {
    let mut t = Tracker::new();
    t.integrate_insert(span(1, 0, 2), &b"ab".to_vec(), 0).unwrap();
    // Re-delivery of the identical insertion: accepted, changes nothing.
    t.integrate_insert(span(1, 0, 2), &b"ab".to_vec(), 0).unwrap();
    assert_eq!(t.elems.len(), 2);
    // A colliding, different operation is refused.
    assert_eq!(
        t.integrate_insert(span(1, 1, 3), &b"xy".to_vec(), 0),
        Err(StoreError::Overlap)
    );
}

#[test]
fn repeated_pass_is_silent() {
    let mut t = Tracker::new();
    t.integrate_insert(span(1, 0, 5), &b"hello".to_vec(), 0).unwrap();
    let mut it = EffectIter::new(&t, vec![span(1, 0, 5)]);
    assert!(it.next(&mut t).is_some());
    // Second pass over the same spans: duplicate delivery yields nothing.
    let mut again = EffectIter::new(&t, vec![span(1, 0, 5)]);
    assert_eq!(again.next(&mut t), None);
    assert_eq!(t.visible_content(), b"hello".to_vec());
}

#[test]
fn concurrent_inserts_converge() {
    // Client 1 inserts "ab" at position 0; client 2 concurrently inserts
    // "x" against the same parent state. The merge policy places client 1's
    // run first; both delivery orders must agree.
    let mut t1 = Tracker::new();
    t1.integrate_insert(span(1, 0, 2), &b"ab".to_vec(), 0).unwrap();
    t1.integrate_insert(span(2, 0, 1), &b"x".to_vec(), 2).unwrap();
    let mut it1 = EffectIter::new(&t1, vec![span(1, 0, 2), span(2, 0, 1)]);
    let mut n1 = 0;
    while let Some(e) = it1.next(&mut t1) {
        match e {
            Effect::Ins { .. } => n1 += 1,
            Effect::Del { .. } => panic!("no deletes expected"),
        }
    }
    assert_eq!(n1, 2);

    let mut t2 = Tracker::new();
    t2.integrate_insert(span(2, 0, 1), &b"x".to_vec(), 0).unwrap();
    t2.integrate_insert(span(1, 0, 2), &b"ab".to_vec(), 0).unwrap();
    let mut it2 = EffectIter::new(&t2, vec![span(2, 0, 1), span(1, 0, 2)]);
    let mut n2 = 0;
    while let Some(e) = it2.next(&mut t2) {
        match e {
            Effect::Ins { .. } => n2 += 1,
            Effect::Del { .. } => panic!("no deletes expected"),
        }
    }
    assert_eq!(n2, 2);

    assert_eq!(t1.visible_content(), b"abx".to_vec());
    assert_eq!(t2.visible_content(), b"abx".to_vec());
}

#[test]
fn concurrent_deletes_accumulate() {
    // Insert "hello", render it, then two clients concurrently delete "ll"
    // (identifiers 2..4 of client 1).
    let mut t = Tracker::new();
    t.integrate_insert(span(1, 0, 5), &b"hello".to_vec(), 0).unwrap();
    let mut it = EffectIter::new(&t, vec![span(1, 0, 5)]);
    while it.next(&mut t).is_some() {}
    assert_eq!(t.visible_content(), b"hello".to_vec());

    t.integrate_delete(ID::new(2, 0), vec![span(1, 2, 4)]).unwrap();
    t.integrate_delete(ID::new(3, 0), vec![span(1, 2, 4)]).unwrap();

    // The first delete's integration makes the content invisible, with
    // exactly one coalesced effect.
    let mut it1 = EffectIter::new(&t, vec![span(2, 0, 2)]);
    assert_eq!(it1.next(&mut t), Some(Effect::Del { pos: 2, len: 2 }));
    assert_eq!(it1.next(&mut t), None);
    assert_eq!(t.visible_content(), b"heo".to_vec());

    // The second, concurrent delete of the same content emits nothing.
    let mut it2 = EffectIter::new(&t, vec![span(3, 0, 2)]);
    assert_eq!(it2.next(&mut t), None);
    assert_eq!(t.visible_content(), b"heo".to_vec());

    // The tombstones now count two concurrent deletes.
    assert_eq!(t.elems[2].dels, 2);
    assert_eq!(t.elems[3].dels, 2);
    assert_eq!(t.elems[0].dels, 0);
}

#[test]
fn delete_unknown_target_is_causal_violation() {
    let mut t = Tracker::new();
    t.integrate_insert(span(1, 0, 3), &b"abc".to_vec(), 0).unwrap();
    assert_eq!(
        t.integrate_delete(ID::new(2, 0), vec![span(1, 2, 5)]),
        Err(StoreError::UnknownId)
    );
    assert_eq!(
        t.mark_deleted(span(9, 0, 1)),
        Err(StoreError::UnknownId)
    );
}

#[test]
fn mark_deleted_reports_newly_invisible_regions() {
    let mut t = Tracker::new();
    t.integrate_insert(span(1, 0, 4), &b"abcd".to_vec(), 0).unwrap();
    let delta = t.update_causal_status(0, 4, StatusChange::SetAsCurrent);
    assert_eq!(delta, 4);
    let regions = t.mark_deleted(span(1, 1, 3)).unwrap();
    assert_eq!(regions, vec![(1, 2)]);
    assert_eq!(t.visible_content(), b"ad".to_vec());
    // Deleting again: already invisible, no region reported.
    let regions2 = t.mark_deleted(span(1, 1, 3)).unwrap();
    assert_eq!(regions2, vec![]);
}

#[test]
fn update_causal_status_round_trip() {
    let mut t = Tracker::new();
    t.integrate_insert(span(1, 0, 3), &b"abc".to_vec(), 0).unwrap();
    assert_eq!(t.update_causal_status(0, 3, StatusChange::SetAsCurrent), 3);
    assert_eq!(t.update_causal_status(0, 3, StatusChange::SetAsCurrent), 0);
    assert_eq!(t.update_causal_status(0, 3, StatusChange::Delete), -3);
    assert_eq!(t.update_causal_status(0, 3, StatusChange::Delete), 0);
    assert_eq!(t.update_causal_status(0, 3, StatusChange::UndoDelete), 0);
    assert_eq!(t.update_causal_status(0, 3, StatusChange::UndoDelete), 3);
}

#[test]
fn lookup_first_resolves_cursors() {
    let mut t = Tracker::new();
    t.integrate_insert(span(1, 0, 3), &b"abc".to_vec(), 0).unwrap();
    t.integrate_delete(ID::new(2, 0), vec![span(1, 0, 2)]).unwrap();
    match t.lookup_first(span(1, 1, 3)) {
        Some(FirstCursor::Ins { idx, len }) => {
            assert_eq!(idx, 1);
            assert_eq!(len, 2);
        },
        other => panic!("expected insertion cursor, got {:?}", other),
    }
    match t.lookup_first(span(2, 1, 2)) {
        Some(FirstCursor::Del { op_idx, offset, len }) => {
            assert_eq!(op_idx, 1);
            assert_eq!(offset, 1);
            assert_eq!(len, 1);
        },
        other => panic!("expected delete cursor, got {:?}", other),
    }
    assert!(t.lookup_first(span(9, 0, 1)).is_none());
}

fn graph() -> Vec<OpNode> {
    vec![
        OpNode { id: ID::new(1, 0), parents: vec![] },
        OpNode { id: ID::new(1, 1), parents: vec![ID::new(1, 0)] },
        OpNode { id: ID::new(2, 0), parents: vec![ID::new(1, 0)] },
    ]
}

#[test]
fn critical_version_of_diverged_ends() {
    let g = graph();
    let ends = vec![vec![ID::new(1, 1)], vec![ID::new(2, 0)]];
    let v = calc_critical_version_bfs(&g, &ends).unwrap();
    // Only client 1's first operation is in both histories.
    assert_eq!(v, vec![(1, 1), (2, 0)]);
}

#[test]
fn critical_version_of_common_end() {
    let g = graph();
    let ends = vec![vec![ID::new(1, 1), ID::new(2, 0)]];
    let v = calc_critical_version_bfs(&g, &ends).unwrap();
    assert_eq!(v, vec![(1, 2), (2, 1)]);
}

#[test]
fn frontier_strategies_agree() {
    let g = graph();
    let cases = vec![
        vec![vec![ID::new(1, 1)], vec![ID::new(2, 0)]],
        vec![vec![ID::new(1, 1), ID::new(2, 0)]],
        vec![vec![ID::new(1, 0)]],
        vec![],
    ];
    for ends in cases {
        let b = calc_critical_version_bfs(&g, &ends).unwrap();
        let d = calc_critical_version_dfs(&g, &ends).unwrap();
        assert_eq!(b, d);
    }
}

#[test]
fn agreed_frontier_matches_both_strategies() {
    let g = graph();
    let ends = vec![vec![ID::new(1, 1)], vec![ID::new(2, 0)]];
    let v = calc_critical_version_agreed(&g, &ends).unwrap();
    assert_eq!(v, calc_critical_version_bfs(&g, &ends).unwrap());
    assert_eq!(v, calc_critical_version_dfs(&g, &ends).unwrap());
}

#[test]
fn frontier_rejects_unknown_end() {
    let g = graph();
    let ends = vec![vec![ID::new(9, 9)]];
    assert_eq!(calc_critical_version_bfs(&g, &ends), Err(FrontierError::UnknownNode));
    assert_eq!(calc_critical_version_dfs(&g, &ends), Err(FrontierError::UnknownNode));
}

#[test]
fn mark_deleted_regions_are_canonical() {
    // "ab" from client 1 with client 2's "x" interleaved between the two:
    // deleting client 1's span hides two separate visible regions.
    let mut t = Tracker::new();
    t.integrate_insert(span(1, 0, 2), &b"ab".to_vec(), 0).unwrap();
    t.integrate_insert(span(2, 0, 1), &b"x".to_vec(), 1).unwrap();
    assert_eq!(t.update_causal_status(0, 3, StatusChange::SetAsCurrent), 3);
    assert_eq!(t.visible_content(), b"axb".to_vec());
    let regions = t.mark_deleted(span(1, 0, 2)).unwrap();
    // Two non-empty regions at distinct positions: "a" at 0, then "b",
    // which sits at position 1 once "a" is hidden.
    assert_eq!(regions, vec![(0, 1), (1, 1)]);
    assert_eq!(t.visible_content(), b"x".to_vec());
}

#[test]
fn duplicate_pass_returns_no_records() {
    // The effect list of a replayed pass is itself empty — not merely a
    // list of records that expand to nothing.
    let mut t = Tracker::new();
    t.integrate_insert(span(1, 0, 3), &b"abc".to_vec(), 0).unwrap();
    t.integrate_delete(ID::new(2, 0), vec![span(1, 1, 2)]).unwrap();
    let first = collect_effects(&mut t, vec![span(1, 0, 3), span(2, 0, 1)]);
    assert!(first.len() > 0);
    let again = collect_effects(&mut t, vec![span(1, 0, 3), span(2, 0, 1)]);
    assert_eq!(again.len(), 0);
}

#[test]
fn iterator_is_lazy_and_resumable() {
    // Creating the iterator mutates nothing; abandoning a partial drain
    // and re-issuing a fresh walk over the original targets produces
    // exactly what is still owed.
    let mut t = Tracker::new();
    t.integrate_insert(span(1, 0, 2), &b"ab".to_vec(), 0).unwrap();
    t.integrate_insert(span(2, 0, 1), &b"x".to_vec(), 2).unwrap();
    let targets = vec![span(1, 0, 2), span(2, 0, 1)];
    let mut it = EffectIter::new(&t, targets.clone());
    // Nothing happened yet: the store is untouched.
    assert_eq!(t.visible_content(), b"".to_vec());
    // Drain one effect, then abandon the iterator.
    let first = it.next(&mut t);
    assert_eq!(first, Some(Effect::Ins { pos: 0, content: b"ab".to_vec() }));
    assert_eq!(t.visible_content(), b"ab".to_vec());
    drop(it);
    // A fresh walk over the original target set owes exactly the rest.
    let rest = collect_effects(&mut t, targets);
    assert_eq!(rest, vec![Effect::Ins { pos: 2, content: b"x".to_vec() }]);
    assert_eq!(t.visible_content(), b"abx".to_vec());
}
