use roaring::RoaringBitmap;
use sekejap::bitmap::{bitmap_from_slice, intersect_with, narrow, subtract_from, take_first, union_with};
use sekejap::graph::Graph;
use sekejap::pipeline::{execute_pipeline, IndexUsed, PipelineError, PlanStep};
use sekejap::store::NodeTable;
use sekejap::text::{hash_text, parse_entity_id};

fn bm(v: &[u32]) -> RoaringBitmap {
    v.iter().copied().collect()
}

fn setup() -> (NodeTable, Graph, Vec<u32>) {
    let mut t = NodeTable::new(100);
    let mut ids = Vec::new();
    for s in ["n/a", "n/b", "n/c", "n/d", "m/e"] {
        let (col, h) = parse_entity_id(s);
        ids.push(t.write(h, col, 0, 0, 0, 0, u32::MAX, 0).unwrap());
    }
    let mut g = Graph::new();
    let next = hash_text("next");
    g.link(ids[0], ids[1], next, 0, 0);
    g.link(ids[1], ids[2], next, 0, 0);
    g.link(ids[2], ids[3], next, 0, 0);
    (t, g, ids)
}

fn slug(s: &str) -> u64 {
    parse_entity_id(s).1
}

#[test]
fn starters_and_hops() {
    let (t, g, ids) = setup();
    let next = hash_text("next");
    let steps = vec![PlanStep::One(slug("n/a")), PlanStep::Hops(3), PlanStep::Forward(next)];
    let out = execute_pipeline(&t, &g, &steps, 3).unwrap();
    assert_eq!(out.data, bm(&ids[0..4]));
    assert_eq!(out.trace.steps.len(), 2);
    assert_eq!(out.trace.steps[1].index_used, IndexUsed::AdjFwd);
    assert_eq!(out.trace.steps[1].input_size, 1);
    assert_eq!(out.trace.steps[1].output_size, 4);

    let steps = vec![PlanStep::One(slug("n/d")), PlanStep::Hops(3), PlanStep::BackwardParallel(next)];
    assert_eq!(execute_pipeline(&t, &g, &steps, 3).unwrap().data, bm(&ids[0..4]));

    // without Hops a traversal goes one hop
    let steps = vec![PlanStep::One(slug("n/a")), PlanStep::Forward(next)];
    assert_eq!(execute_pipeline(&t, &g, &steps, 3).unwrap().data, bm(&ids[0..2]));
}

#[test]
fn collection_and_all() {
    let (t, g, ids) = setup();
    let steps = vec![PlanStep::Collection(hash_text("n"))];
    assert_eq!(execute_pipeline(&t, &g, &steps, 3).unwrap().data, bm(&ids[0..4]));
    let steps = vec![PlanStep::All, PlanStep::Collection(hash_text("m"))];
    assert_eq!(execute_pipeline(&t, &g, &steps, 3).unwrap().data, bm(&[ids[4]]));
    let steps = vec![PlanStep::Many(vec![slug("n/b"), slug("m/e"), 42])];
    assert_eq!(execute_pipeline(&t, &g, &steps, 3).unwrap().data, bm(&[ids[1], ids[4]]));
    let empty: Vec<PlanStep> = vec![];
    assert!(execute_pipeline(&t, &g, &empty, 3).unwrap().data.is_empty());
}

#[test]
fn leaves_and_roots() {
    let (t, g, ids) = setup();
    let steps = vec![PlanStep::All, PlanStep::Leaves];
    assert_eq!(execute_pipeline(&t, &g, &steps, 3).unwrap().data, bm(&[ids[3], ids[4]]));
    let steps = vec![PlanStep::All, PlanStep::Roots];
    assert_eq!(execute_pipeline(&t, &g, &steps, 3).unwrap().data, bm(&[ids[0], ids[4]]));
}

#[test]
fn filters_narrow_the_candidates() {
    let (t, g, ids) = setup();
    let base = vec![PlanStep::Collection(hash_text("n"))];
    let before = execute_pipeline(&t, &g, &base, 3).unwrap().data;
    let mut with_filter = base;
    with_filter.push(PlanStep::Matched(bm(&[ids[1], ids[4], 77]), IndexUsed::HashIndex));
    let after = execute_pipeline(&t, &g, &with_filter, 3).unwrap().data;
    assert_eq!(after, bm(&[ids[1]]));
    assert!(after.is_subset(&before));
    let out = execute_pipeline(&t, &g, &with_filter, 3).unwrap();
    assert_eq!(out.trace.steps[1].index_used, IndexUsed::HashIndex);
}

#[test]
fn set_algebra_steps() {
    let (t, g, ids) = setup();
    let n = hash_text("n");
    let m = hash_text("m");
    let steps = vec![PlanStep::Collection(n), PlanStep::Union(vec![PlanStep::Collection(m)])];
    assert_eq!(execute_pipeline(&t, &g, &steps, 3).unwrap().data, bm(&ids));
    let steps = vec![PlanStep::All, PlanStep::Subtract(vec![PlanStep::Collection(n)])];
    assert_eq!(execute_pipeline(&t, &g, &steps, 3).unwrap().data, bm(&[ids[4]]));
    let steps = vec![PlanStep::All, PlanStep::Intersect(vec![PlanStep::One(slug("n/c"))])];
    assert_eq!(execute_pipeline(&t, &g, &steps, 3).unwrap().data, bm(&[ids[2]]));
    // subtracting from nothing leaves nothing
    let steps = vec![PlanStep::Subtract(vec![PlanStep::All])];
    assert!(execute_pipeline(&t, &g, &steps, 3).unwrap().data.is_empty());
}

#[test]
fn nesting_beyond_the_depth_fails() {
    let (t, g, _) = setup();
    let steps = vec![PlanStep::All, PlanStep::Union(vec![PlanStep::Union(vec![PlanStep::All])])];
    assert!(execute_pipeline(&t, &g, &steps, 2).is_ok());
    assert_eq!(execute_pipeline(&t, &g, &steps, 1).err(), Some(PipelineError::TooDeep));
}

#[test]
fn take_keeps_lowest_indices_before_any_ordering() {
    let (t, g, ids) = setup();
    let steps = vec![PlanStep::All, PlanStep::Take(2)];
    let out = execute_pipeline(&t, &g, &steps, 3).unwrap();
    assert_eq!(out.data, bm(&ids[0..2]));
    assert_eq!(out.trace.steps[1].index_used, IndexUsed::Limit);
    assert_eq!(take_first(&bm(&[9, 3, 7, 1]), 3), bm(&[1, 3, 7]));
    assert_eq!(take_first(&bm(&[9, 3]), 5), bm(&[3, 9]));
    assert!(take_first(&bm(&[9, 3]), 0).is_empty());
}

#[test]
fn union_and_intersection_commute() {
    let a = bm(&[1, 2, 3]);
    let b = bm(&[3, 4]);
    assert_eq!(union_with(Some(a.clone()), b.clone()), union_with(Some(b.clone()), a.clone()));
    assert_eq!(intersect_with(Some(a.clone()), b.clone()), intersect_with(Some(b.clone()), a.clone()));
    let diff = subtract_from(Some(a.clone()), b.clone()).unwrap();
    assert_eq!(diff, bm(&[1, 2]));
    assert!(intersect_with(Some(diff), b.clone()).is_empty());
    assert_eq!(narrow(None, b.clone()), b);
    assert_eq!(bitmap_from_slice(&[5, 5, 2]), bm(&[2, 5]));
}

#[test]
fn traversals_skip_deleted_nodes() {
    let (mut t, g, ids) = setup();
    let next = hash_text("next");
    t.delete(slug("n/b"));
    let steps = vec![PlanStep::One(slug("n/a")), PlanStep::Hops(3), PlanStep::Forward(next)];
    assert_eq!(execute_pipeline(&t, &g, &steps, 3).unwrap().data, bm(&[ids[0], ids[2], ids[3]]));
}
