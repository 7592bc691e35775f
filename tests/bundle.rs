use ecs_core::{add_instance, batch_bin, prepare_sorted_item, BatchedInstanceBuffer, BinnedBatch, Bundle, Entity};

#[test]
fn bundle_round_trip() {
    let mut b = Bundle::new();
    b.insert(3, 30);
    b.insert(1, 10);
    b.insert(2, 20);
    let ids = b.component_ids();
    let vals = b.get_components();
    assert_eq!(ids, vec![3, 1, 2]);
    assert_eq!(vals, vec![30, 10, 20]);
    let r = Bundle::from_components(ids, vals).unwrap();
    assert_eq!(r.component_ids(), vec![3, 1, 2]);
    assert_eq!(r.get_components(), vec![30, 10, 20]);
}

#[test]
fn bundle_round_trip_empty() {
    let b = Bundle::new();
    assert!(b.is_empty());
    let r = Bundle::from_components(b.component_ids(), b.get_components()).unwrap();
    assert_eq!(r.len(), 0);
}

#[test]
fn bundle_insert_keeps_order_and_overwrites() {
    let mut b = Bundle::new();
    b.insert(4, 1);
    b.insert(2, 2);
    b.insert(4, 3);
    assert_eq!(b.component_ids(), vec![4, 2]);
    assert_eq!(b.get_components(), vec![3, 2]);
}

#[test]
fn nested_bundle_extends() {
    let mut outer = Bundle::new();
    outer.insert(1, 10);
    let mut inner = Bundle::new();
    inner.insert(2, 20);
    inner.insert(1, 11);
    outer.extend(&inner);
    assert_eq!(outer.component_ids(), vec![1, 2]);
    assert_eq!(outer.get_components(), vec![11, 20]);
}

#[test]
fn from_components_rejects_bad_input() {
    assert!(Bundle::from_components(vec![1, 1], vec![2, 3]).is_none());
    assert!(Bundle::from_components(vec![1, 2], vec![2]).is_none());
}

#[test]
fn instance_buffer_indices() {
    let mut buf: BatchedInstanceBuffer<u32> = BatchedInstanceBuffer::new();
    assert!(buf.is_empty());
    assert_eq!(buf.push(7), 0);
    assert_eq!(buf.push(8), 1);
    assert_eq!(buf.len(), 2);
    assert_eq!(buf.data, vec![7, 8]);
    buf.clear();
    assert_eq!(buf.len(), 0);
}

fn ent(i: u32) -> Entity {
    Entity { index: i, generation: 0 }
}

#[test]
fn contiguous_instances_form_one_batch() {
    let es = vec![ent(1), ent(2), ent(3)];
    let inst = vec![(4, None), (5, None), (6, None)];
    let b = batch_bin(&es, &inst);
    assert_eq!(b, vec![BinnedBatch { representative_entity: ent(1), start: 4, end: 7, dynamic_offset: None }]);
}

#[test]
fn offset_change_or_gap_splits_batches() {
    let es = vec![ent(1), ent(2), ent(3), ent(4)];
    let inst = vec![(0, Some(0)), (1, Some(0)), (2, Some(256)), (5, Some(256))];
    let b = batch_bin(&es, &inst);
    assert_eq!(
        b,
        vec![
            BinnedBatch { representative_entity: ent(1), start: 0, end: 2, dynamic_offset: Some(0) },
            BinnedBatch { representative_entity: ent(3), start: 2, end: 3, dynamic_offset: Some(256) },
            BinnedBatch { representative_entity: ent(4), start: 5, end: 6, dynamic_offset: Some(256) },
        ]
    );
}

#[test]
fn empty_bin_has_no_batches() {
    assert!(batch_bin(&vec![], &vec![]).is_empty());
}

#[test]
fn add_instance_extends_last_batch() {
    let mut bs = Vec::new();
    add_instance(&mut bs, ent(9), 3, None);
    add_instance(&mut bs, ent(8), 4, None);
    assert_eq!(bs.len(), 1);
    assert_eq!(bs[0].representative_entity, ent(9));
    assert_eq!((bs[0].start, bs[0].end), (3, 5));
}

#[test]
fn nested_bundle_keeps_declaration_order() {
    let mut inner = Bundle::new();
    inner.insert(10, 1);
    inner.insert(11, 2);
    let mut outer = Bundle::new();
    outer.extend(&inner);
    outer.insert(12, 3);
    assert_eq!(outer.component_ids(), vec![10, 11, 12]);
    assert_eq!(outer.get_components(), vec![1, 2, 3]);
    let r = Bundle::from_components(outer.component_ids(), outer.get_components()).unwrap();
    assert_eq!(r.component_ids(), vec![10, 11, 12]);
    assert_eq!(r.get_components(), vec![1, 2, 3]);
}

#[test]
fn sorted_item_pushes_one_instance() {
    let mut buf: BatchedInstanceBuffer<u32> = BatchedInstanceBuffer::new();
    buf.push(1);
    assert_eq!(prepare_sorted_item(&mut buf, Some(9)), Some((1, 2)));
    assert_eq!(prepare_sorted_item(&mut buf, None), None);
    assert_eq!(buf.data, vec![1, 9]);
}
