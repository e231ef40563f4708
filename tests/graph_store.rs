use roaring::RoaringBitmap;
use sekejap::graph::Graph;
use sekejap::links::{link_slugs, live_out_edges, unlink_slugs, LinkError};
use sekejap::store::{NodeTable, StoreError};
use sekejap::text::{hash_text, parse_entity_id};

fn write_slug(t: &mut NodeTable, slug: &str) -> u32 {
    let (col, h) = parse_entity_id(slug);
    t.write(h, col, 0, 0, 0, 0, u32::MAX, 0).unwrap()
}

fn bm(v: &[u32]) -> RoaringBitmap {
    v.iter().copied().collect()
}

#[test]
fn write_read_delete_scenario() {
    let mut t = NodeTable::new(100);
    let i = write_slug(&mut t, "users/ada");
    let (col, h) = parse_entity_id("users/ada");
    assert_eq!(t.get(h), Some(i));
    assert!(t.in_collection(col, i));
    assert_eq!(t.collection_snapshot(col).len(), 1);
    assert_eq!(t.delete(h), Some(i));
    assert_eq!(t.get(h), None);
    assert!(!t.node(i).active);
    assert_eq!(t.collection_snapshot(hash_text("users")).len(), 0);
    assert_eq!(t.delete(h), None);
    assert!(t.all().is_empty());
}

#[test]
fn rewriting_a_slug_tombstones_the_old_node() {
    let mut t = NodeTable::new(100);
    let a = write_slug(&mut t, "p/x");
    let b = write_slug(&mut t, "p/x");
    assert_ne!(a, b);
    let (col, h) = parse_entity_id("p/x");
    assert_eq!(t.get(h), Some(b));
    assert!(!t.node(a).active);
    assert_eq!(t.collection_snapshot(col), bm(&[b]));
    assert_eq!(t.all(), bm(&[b]));
}

#[test]
fn reopen_rebuilds_the_same_indexes() {
    let mut t = NodeTable::new(100);
    for k in 0..5 {
        write_slug(&mut t, &format!("p/{}", k));
    }
    write_slug(&mut t, "q/z");
    let (_, hz) = parse_entity_id("q/z");
    t.delete(hz);
    let records: Vec<_> = (0..t.len() as u32).map(|i| t.node(i)).collect();
    let r = NodeTable::rebuild(&records, 100).unwrap();
    assert_eq!(r.collection_snapshot(hash_text("p")).len(), 5);
    for k in 0..5 {
        let (_, h) = parse_entity_id(&format!("p/{}", k));
        assert_eq!(r.get(h), t.get(h));
        assert!(r.get(h).is_some());
    }
    assert_eq!(r.get(hz), None);
    assert_eq!(r.all(), t.all());
}

#[test]
fn one_and_many_resolve_live_slugs() {
    let mut t = NodeTable::new(10);
    let a = write_slug(&mut t, "n/a");
    let b = write_slug(&mut t, "n/b");
    let (_, ha) = parse_entity_id("n/a");
    let (_, hb) = parse_entity_id("n/b");
    assert_eq!(t.one(ha), bm(&[a]));
    assert!(t.one(12345).is_empty());
    assert_eq!(t.many(&vec![ha, hb, 999]), bm(&[a, b]));
}

#[test]
fn full_slug_index_is_reported() {
    let mut t = NodeTable::new(0);
    for k in 1u64..=16 {
        t.write(k, 1, 0, 0, 0, 0, 0, 0).unwrap();
    }
    assert_eq!(t.write(100, 1, 0, 0, 0, 0, 0, 0), Err(StoreError::IndexFull));
}

fn chain() -> (NodeTable, Graph, Vec<u32>) {
    let mut t = NodeTable::new(10);
    let ids: Vec<u32> = ["n/a", "n/b", "n/c", "n/d"].iter().map(|s| write_slug(&mut t, s)).collect();
    let mut g = Graph::new();
    let next = hash_text("next");
    g.link(ids[0], ids[1], next, 0, 0);
    g.link(ids[1], ids[2], next, 0, 0);
    g.link(ids[2], ids[3], next, 0, 0);
    (t, g, ids)
}

#[test]
fn graph_traversal_scenario() {
    let (_t, g, ids) = chain();
    let next = hash_text("next");
    let all = bm(&ids);
    assert_eq!(g.bfs_forward(&bm(&[ids[0]]), next, 3), all);
    assert_eq!(g.bfs_backward(&bm(&[ids[3]]), next, 3), all);
    assert_eq!(g.bfs_forward(&bm(&[ids[0]]), next, 1), bm(&[ids[0], ids[1]]));
    assert_eq!(g.bfs_forward(&bm(&[ids[0]]), next, 0), bm(&[ids[0]]));
    assert_eq!(g.bfs_forward(&bm(&[ids[0]]), hash_text("other"), 3), bm(&[ids[0]]));
}

#[test]
fn unlinked_edges_are_not_followed() {
    let (_t, mut g, ids) = chain();
    let next = hash_text("next");
    assert_eq!(g.unlink(ids[1], ids[2], next), Some(1));
    assert!(!g.edge(1).active);
    assert_eq!(g.unlink(ids[1], ids[2], next), None);
    assert_eq!(g.bfs_forward(&bm(&[ids[0]]), next, 3), bm(&[ids[0], ids[1]]));
    assert_eq!(g.edge_count(), 3);
}

#[test]
fn adjacency_mirrors_every_edge() {
    let (_t, g, ids) = chain();
    assert!(g.has_edges(ids[0], true));
    assert!(!g.has_edges(ids[0], false));
    assert!(g.has_edges(ids[3], false));
    assert!(!g.has_edges(ids[3], true));
    let rebuilt = Graph::from_edges(&(0..g.edge_count()).map(|j| g.edge(j)).collect());
    let next = hash_text("next");
    assert_eq!(rebuilt.bfs_backward(&bm(&[ids[3]]), next, 3), g.bfs_backward(&bm(&[ids[3]]), next, 3));
}

#[test]
fn edges_by_slug_resolve_both_ends() {
    let mut t = NodeTable::new(10);
    let a = write_slug(&mut t, "n/a");
    let b = write_slug(&mut t, "n/b");
    let (_, ha) = parse_entity_id("n/a");
    let (_, hb) = parse_entity_id("n/b");
    let mut g = Graph::new();
    let ty = hash_text("knows");
    assert_eq!(link_slugs(&t, &mut g, ha, 42, ty, 0, 0), Err(LinkError::TargetNotFound));
    assert_eq!(link_slugs(&t, &mut g, 42, hb, ty, 0, 0), Err(LinkError::SourceNotFound));
    assert_eq!(g.edge_count(), 0);
    assert_eq!(link_slugs(&t, &mut g, ha, hb, ty, 0, 7), Ok(0));
    assert_eq!(g.edge(0).from_node, a);
    assert_eq!(g.edge(0).to_node, b);
    assert_eq!(live_out_edges(&t, &g, &bm(&[a])), vec![0]);
    assert!(live_out_edges(&t, &g, &bm(&[b])).is_empty());
    assert_eq!(unlink_slugs(&t, &mut g, ha, hb, ty), Ok(Some(0)));
    assert_eq!(unlink_slugs(&t, &mut g, ha, hb, ty), Ok(None));
    assert!(live_out_edges(&t, &g, &bm(&[a])).is_empty());
}

#[test]
fn rebuild_of_a_full_arena_succeeds() {
    let mut t = NodeTable::new(40);
    for k in 0..40 {
        write_slug(&mut t, &format!("c/{}", k));
    }
    let records: Vec<_> = (0..t.len() as u32).map(|i| t.node(i)).collect();
    let r = NodeTable::rebuild(&records, 40).unwrap();
    assert_eq!(r.collection_snapshot(hash_text("c")).len(), 40);
}
