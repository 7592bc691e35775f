use ecs_core::{Bundle, Entity, EntityError, QueryFilter, QueryState, Tick, World};

fn bundle(pairs: &[(usize, u64)]) -> Bundle {
    let mut b = Bundle::new();
    for &(id, v) in pairs {
        b.insert(id, v);
    }
    b
}

/// A world with component types registered under keys 0..10, which take ids 0..10.
fn world() -> World {
    let mut w = World::new();
    for key in 0..10u64 {
        let id = w.register_component(key, 8, 8);
        assert_eq!(id, key as usize);
    }
    w
}

fn sorted(mut v: Vec<Entity>) -> Vec<(u32, u32)> {
    let mut r: Vec<(u32, u32)> = v.drain(..).map(|e| (e.index, e.generation)).collect();
    r.sort();
    r
}

#[test]
fn register_is_idempotent() {
    let mut w = World::new();
    let a = w.register_component(100, 8, 8);
    let b = w.register_component(200, 4, 4);
    let a2 = w.register_component(100, 8, 8);
    assert_eq!(a, 0);
    assert_eq!(b, 1);
    assert_eq!(a2, a);
    assert_eq!(w.components().len(), 2);
    let info = w.components().info(b).unwrap();
    assert_eq!(info.size, 4);
    assert_eq!(info.align, 4);
    assert_eq!(info.type_key, 200);
    assert_eq!(w.components().id_of(200), Some(1));
    assert_eq!(w.components().id_of(300), None);
}

#[test]
fn spawn_with_no_components_gives_live_entity() {
    let mut w = world();
    let e = w.spawn(&Bundle::new());
    assert!(w.is_alive(e));
    assert!(w.location(e).is_some());
    assert_eq!(w.get(e, 0), None);
}

#[test]
fn spawn_and_read_back() {
    let mut w = world();
    let e = w.spawn(&bundle(&[(0, 10), (1, 11)]));
    assert_eq!(w.get(e, 0), Some(10));
    assert_eq!(w.get(e, 1), Some(11));
    assert_eq!(w.get(e, 2), None);
    assert!(w.has(e, 1));
    assert!(!w.has(e, 2));
}

#[test]
fn same_component_set_shares_archetype() {
    let mut w = world();
    let a = w.spawn(&bundle(&[(0, 1), (1, 2)]));
    let b = w.spawn(&bundle(&[(1, 3), (0, 4)]));
    let la = w.location(a).unwrap();
    let lb = w.location(b).unwrap();
    assert_eq!(la.archetype, lb.archetype);
    assert_eq!(la.row, 0);
    assert_eq!(lb.row, 1);
    assert_eq!(w.get(b, 0), Some(4));
    assert_eq!(w.get(b, 1), Some(3));
}

#[test]
fn insert_migrates_and_keeps_old_values() {
    let mut w = world();
    let e = w.spawn(&bundle(&[(0, 1)]));
    let other = w.spawn(&bundle(&[(0, 2)]));
    let before = w.location(e).unwrap();
    assert_eq!(w.insert(e, &bundle(&[(5, 50)])), Ok(()));
    let after = w.location(e).unwrap();
    assert_ne!(before.archetype, after.archetype);
    assert_eq!(w.get(e, 0), Some(1));
    assert_eq!(w.get(e, 5), Some(50));
    // the other entity filled the vacated row
    assert_eq!(w.location(other).unwrap().row, 0);
    assert_eq!(w.get(other, 0), Some(2));
}

#[test]
fn insert_existing_component_writes_in_place() {
    let mut w = world();
    let e = w.spawn(&bundle(&[(0, 1), (1, 2)]));
    let before = w.location(e).unwrap();
    assert_eq!(w.insert(e, &bundle(&[(1, 20)])), Ok(()));
    assert_eq!(w.location(e).unwrap(), before);
    assert_eq!(w.get(e, 0), Some(1));
    assert_eq!(w.get(e, 1), Some(20));
}

#[test]
fn remove_absent_component_is_noop() {
    let mut w = world();
    let e = w.spawn(&bundle(&[(0, 1)]));
    let before = w.location(e).unwrap();
    assert_eq!(w.remove(e, &vec![7]), Ok(false));
    assert_eq!(w.location(e).unwrap(), before);
    assert_eq!(w.get(e, 0), Some(1));
}

#[test]
fn remove_present_component() {
    let mut w = world();
    let e = w.spawn(&bundle(&[(0, 1), (1, 2), (2, 3)]));
    assert_eq!(w.remove(e, &vec![1, 9]), Ok(true));
    assert_eq!(w.get(e, 0), Some(1));
    assert_eq!(w.get(e, 1), None);
    assert_eq!(w.get(e, 2), Some(3));
}

#[test]
fn despawned_handle_is_stale_everywhere() {
    let mut w = world();
    let e = w.spawn(&bundle(&[(0, 1)]));
    assert!(w.despawn(e));
    assert!(!w.is_alive(e));
    assert!(!w.despawn(e));
    assert_eq!(w.get(e, 0), None);
    assert_eq!(w.location(e), None);
    assert_eq!(w.insert(e, &bundle(&[(1, 1)])), Err(EntityError::NoSuchEntity));
    assert_eq!(w.remove(e, &vec![0]), Err(EntityError::NoSuchEntity));
    assert!(!w.set(e, 0, 5));
    let f = w.spawn(&bundle(&[(0, 2)]));
    assert_eq!(f.index, e.index);
    assert_ne!(f.generation, e.generation);
    assert!(!w.is_alive(e));
    assert!(w.is_alive(f));
    assert_eq!(w.get(e, 0), None);
    assert_eq!(w.get(f, 0), Some(2));
}

#[test]
fn swap_remove_moves_last_row_into_hole() {
    let mut w = world();
    let a = w.spawn(&bundle(&[(0, 1)]));
    let b = w.spawn(&bundle(&[(0, 2)]));
    let c = w.spawn(&bundle(&[(0, 3)]));
    let la = w.location(a).unwrap();
    let lb = w.location(b).unwrap();
    assert!(w.despawn(b));
    let lc = w.location(c).unwrap();
    assert_eq!(lc, lb);
    assert_eq!(w.location(a).unwrap(), la);
    assert_eq!(w.get(a, 0), Some(1));
    assert_eq!(w.get(c, 0), Some(3));
}

#[test]
fn swap_remove_of_last_row_truncates() {
    let mut w = world();
    let a = w.spawn(&bundle(&[(0, 1)]));
    let b = w.spawn(&bundle(&[(0, 2)]));
    let la = w.location(a).unwrap();
    assert!(w.despawn(b));
    assert_eq!(w.location(a).unwrap(), la);
    assert_eq!(w.get(a, 0), Some(1));
}

#[test]
fn query_with_without_excludes_entities_with_y() {
    let mut w = world();
    let x = 0usize;
    let y = 1usize;
    let only_x = w.spawn(&bundle(&[(x, 1)]));
    let both = w.spawn(&bundle(&[(x, 2), (y, 3)]));
    let only_y = w.spawn(&bundle(&[(y, 4)]));
    let mut f = QueryFilter::new();
    f.with(x);
    f.without(y);
    assert_eq!(sorted(w.query(&f)), sorted(vec![only_x]));
    // the entity migrates away from y and is then yielded
    assert_eq!(w.remove(both, &vec![y]), Ok(true));
    assert_eq!(sorted(w.query(&f)), sorted(vec![only_x, both]));
    // and back again
    assert_eq!(w.insert(both, &bundle(&[(y, 5)])), Ok(()));
    assert_eq!(sorted(w.query(&f)), sorted(vec![only_x]));
    let all = QueryFilter::new();
    assert_eq!(sorted(w.query(&all)), sorted(vec![only_x, both, only_y]));
}

#[test]
fn changed_filter_sees_writes_after_last_run() {
    let mut w = world();
    let e = w.spawn(&bundle(&[(0, 1)]));
    let f = w.spawn(&bundle(&[(0, 2)]));
    let last_run = w.change_tick();
    let t = w.increment_change_tick();
    assert!(w.set(e, 0, 10));
    let this_run = w.increment_change_tick();
    let filter = QueryFilter::new();
    let seen = w.query_changed(&filter, 0, last_run, this_run);
    assert_eq!(sorted(seen), sorted(vec![e]));
    // a query that last ran at the write's tick does not see it
    let unseen = w.query_changed(&filter, 0, t, this_run);
    assert!(unseen.is_empty());
    assert_eq!(w.get_cell(f, 0).unwrap().changed, 0);
    assert_eq!(w.get_cell(e, 0).unwrap().changed, 1);
    assert_eq!(w.get_cell(e, 0).unwrap().added, 0);
}

#[test]
fn added_filter_sees_new_components_only() {
    let mut w = world();
    let e = w.spawn(&bundle(&[(0, 1)]));
    let last_run = w.change_tick();
    w.increment_change_tick();
    let g = w.spawn(&bundle(&[(0, 2)]));
    assert_eq!(w.insert(e, &bundle(&[(0, 3)])), Ok(()));
    let this_run = w.increment_change_tick();
    let filter = QueryFilter::new();
    assert_eq!(sorted(w.query_added(&filter, 0, last_run, this_run)), sorted(vec![g]));
    assert_eq!(sorted(w.query_changed(&filter, 0, last_run, this_run)), sorted(vec![e, g]));
}

#[test]
fn change_tick_wraps() {
    let written = Tick::new(u32::MAX);
    let before = Tick::new(u32::MAX - 1);
    let now = Tick::new(2);
    assert!(written.is_newer_than(before, now));
    let after = Tick::new(0);
    assert!(!written.is_newer_than(after, now));
    assert!(!written.is_newer_than(written, now));
    assert_eq!(Tick::new(u32::MAX).next().get(), 0);
}

#[test]
fn change_detection_plain_ticks() {
    let written = Tick::new(5);
    assert!(written.is_newer_than(Tick::new(4), Tick::new(9)));
    assert!(!written.is_newer_than(Tick::new(5), Tick::new(9)));
    assert!(!written.is_newer_than(Tick::new(7), Tick::new(9)));
}

#[test]
fn query_access_is_per_archetype_column() {
    let mut w = world();
    w.spawn(&bundle(&[(0, 1)]));
    w.spawn(&bundle(&[(0, 2), (1, 3)]));
    let mut with_one = QueryFilter::new();
    with_one.with(1);
    let mut without_one = QueryFilter::new();
    without_one.without(1);
    let a = w.query_access(&with_one, &vec![], &vec![0]);
    let b = w.query_access(&without_one, &vec![], &vec![0]);
    assert!(a.components.has_write(0));
    assert!(b.components.has_write(0));
    // both write component 0, but in archetypes that share no entity
    assert!(!a.conflicts_with(&b));
    let all = QueryFilter::new();
    let c = w.query_access(&all, &vec![0], &vec![]);
    assert!(a.conflicts_with(&c));
    assert!(b.conflicts_with(&c));
    let d = w.query_access(&all, &vec![1], &vec![]);
    assert!(!b.conflicts_with(&d));
    // inside one system, the same two queries clash by component type
    let mut system = ecs_core::Access::new();
    assert_eq!(system.add_param(&a), Ok(()));
    assert!(system.add_param(&b).is_err());
}

#[test]
fn query_yields_each_entity_once() {
    let mut w = world();
    let a = w.spawn(&bundle(&[(0, 1)]));
    let b = w.spawn(&bundle(&[(0, 2), (1, 3)]));
    assert_eq!(w.remove(b, &vec![1]), Ok(true));
    let mut f = QueryFilter::new();
    f.with(0);
    f.without(1);
    let r = w.query(&f);
    assert_eq!(r.len(), 2);
    assert_eq!(sorted(r), sorted(vec![a, b]));
}

#[test]
fn migration_appends_to_target_archetype() {
    let mut w = world();
    let a = w.spawn(&bundle(&[(0, 1), (1, 1)]));
    let b = w.spawn(&bundle(&[(0, 2)]));
    let la = w.location(a).unwrap();
    let lb = w.location(b).unwrap();
    assert_eq!(w.insert(b, &bundle(&[(1, 5)])), Ok(()));
    let lb2 = w.location(b).unwrap();
    assert_eq!(lb2.archetype, la.archetype);
    assert_eq!(lb2.row, 1);
    assert_ne!(lb2.archetype, lb.archetype);
    assert_eq!(w.location(a).unwrap(), la);
}

#[test]
fn despawn_middle_of_three_gives_rows_a_c() {
    let mut w = World::new();
    let pos = w.register_component(42, 4, 4);
    let a = w.spawn(&bundle(&[(pos, 1)]));
    let b = w.spawn(&bundle(&[(pos, 2)]));
    let c = w.spawn(&bundle(&[(pos, 3)]));
    let aid = w.location(a).unwrap().archetype;
    assert_eq!(w.location(a).unwrap().row, 0);
    assert_eq!(w.location(b).unwrap().row, 1);
    assert_eq!(w.location(c).unwrap().row, 2);
    assert!(w.despawn(b));
    assert_eq!(w.location(c).unwrap().archetype, aid);
    assert_eq!(w.location(c).unwrap().row, 1);
    assert_eq!(w.location(a).unwrap().row, 0);
    assert_eq!(w.archetype_entity_list(aid).unwrap(), vec![a, c]);
    assert_eq!(w.get(c, pos), Some(3));
    assert_eq!(w.get(b, pos), None);
}

#[test]
fn archetype_ids_are_sorted() {
    let mut w = world();
    let e = w.spawn(&bundle(&[(7, 1), (2, 2), (5, 3)]));
    let aid = w.location(e).unwrap().archetype;
    assert_eq!(w.archetype_component_ids(aid).unwrap(), vec![2, 5, 7]);
    assert_eq!(w.num_archetypes(), 1);
    assert!(w.archetype_component_ids(1).is_none());
}

#[test]
fn cached_query_state_picks_up_new_archetypes() {
    let mut w = world();
    let a = w.spawn(&bundle(&[(0, 1)]));
    let mut f = QueryFilter::new();
    f.with(0);
    f.without(1);
    let mut state = QueryState::new(f);
    state.update_archetypes(&w);
    assert_eq!(sorted(state.iter(&w)), sorted(vec![a]));
    let b = w.spawn(&bundle(&[(0, 2), (3, 3)]));
    let _c = w.spawn(&bundle(&[(0, 2), (1, 3)]));
    state.update_archetypes(&w);
    assert_eq!(state.seen, w.num_archetypes());
    assert_eq!(sorted(state.iter(&w)), sorted(vec![a, b]));
}

#[test]
fn query_read_fetches_values() {
    let mut w = world();
    let a = w.spawn(&bundle(&[(0, 10), (2, 1)]));
    let _b = w.spawn(&bundle(&[(2, 2)]));
    let c = w.spawn(&bundle(&[(0, 30)]));
    let f = QueryFilter::new();
    let mut r = w.query_read(&f, 0);
    r.sort_by_key(|p| p.0.index);
    assert_eq!(r, vec![(a, 10), (c, 30)]);
    let mut g = QueryFilter::new();
    g.with(2);
    assert_eq!(w.query_read(&g, 0), vec![(a, 10)]);
}
