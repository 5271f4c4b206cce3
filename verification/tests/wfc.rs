use showcase::wfc::{edge, has_tile, road_tiles, road_weight, Rng, Status, Wfc, WfcError, WfcSession, E, N, S, W};
use std::collections::VecDeque;

/// Every collapsed cell agrees with its collapsed neighbours on the shared
/// edge, and no road leaves the grid.
fn assert_consistent(wfc: &Wfc) {
    for y in 0..wfc.height {
        for x in 0..wfc.width {
            let i = wfc.index(x, y);
            let Some(m) = wfc.tile_mask_at(i) else { continue };
            if y == 0 {
                assert_eq!(edge(m, N), 0);
            }
            if x + 1 == wfc.width {
                assert_eq!(edge(m, E), 0);
            }
            if y + 1 == wfc.height {
                assert_eq!(edge(m, S), 0);
            }
            if x == 0 {
                assert_eq!(edge(m, W), 0);
            }
            if x + 1 < wfc.width {
                if let Some(r) = wfc.tile_mask_at(wfc.index(x + 1, y)) {
                    assert_eq!(edge(m, E), edge(r, W));
                }
            }
            if y + 1 < wfc.height {
                if let Some(d) = wfc.tile_mask_at(wfc.index(x, y + 1)) {
                    assert_eq!(edge(m, S), edge(d, N));
                }
            }
        }
    }
}

#[test]
fn tile_weights_and_edges() {
    assert_eq!(road_weight(0), 8);
    assert_eq!(road_weight(1), 1);
    assert_eq!(road_weight(5), 8);
    assert_eq!(road_weight(10), 8);
    assert_eq!(road_weight(3), 6);
    assert_eq!(road_weight(7), 3);
    assert_eq!(road_weight(15), 1);
    let tiles = road_tiles();
    assert_eq!(tiles.len(), 16);
    for (i, t) in tiles.iter().enumerate() {
        assert_eq!(t.mask as usize, i);
        assert_eq!(t.weight, road_weight(t.mask));
    }
    assert_eq!(edge(0b0101, N), 1);
    assert_eq!(edge(0b0101, E), 0);
    assert_eq!(edge(0b0101, S), 1);
    assert!(has_tile(0b100, 2));
    assert!(!has_tile(0b100, 1));
}

#[test]
fn rng_is_a_fixed_xorshift_sequence() {
    let mut r = Rng::new(0);
    assert_eq!(r.state, 0x1234_5678_9abc_def0);
    assert_eq!(r.next_u64(), 13257192714554721081);
    assert_eq!(r.state, 0x69cf1fdabed68fcd);
    assert_eq!(r.next_u64(), 4827567639995753044);
    let mut s = Rng::new(0xC0FFEE);
    assert_eq!(s.gen_range(7), 1);
    let mut t = Rng::new(7);
    let tiles = road_tiles();
    let i = t.choose_weighted_tile(1 << 9, &tiles);
    assert_eq!(i, 9);
}

#[test]
fn new_grid_allows_every_tile() {
    let w = Wfc::new(4, 3);
    assert_eq!(w.cells.len(), 12);
    assert!(w.cells.iter().all(|c| *c == 0xFFFF));
    assert_eq!(w.index(3, 2), 11);
    assert_eq!(w.neighbor(0, 0, N), None);
    assert_eq!(w.neighbor(0, 0, E), Some((1, 0)));
    assert_eq!(w.neighbor(3, 2, S), None);
    assert_eq!(w.neighbor(1, 1, W), Some((0, 1)));
    assert!(!w.is_collapsed(0));
    assert_eq!(w.tile_mask_at(0), None);
    let with_north_road = w.tiles_with_edge(N, 1);
    for i in 0..16usize {
        assert_eq!(has_tile(with_north_road, i), i & 1 == 1);
    }
    let below_plain = w.allowed_neighbors(1 << 0, S);
    for i in 0..16usize {
        assert_eq!(has_tile(below_plain, i), i & 1 == 0);
    }
}

#[test]
fn closing_the_border_removes_outward_roads() {
    let mut w = Wfc::new(3, 3);
    let changed = w.apply_closed_boundary().unwrap();
    assert!(!changed.is_empty());
    for x in 0..3 {
        for t in 0..16usize {
            if t & 1 == 1 {
                assert!(!has_tile(w.cells[w.index(x, 0)], t));
            }
        }
    }
    let mut u = Wfc::new(3, 3);
    u.cells[4] = 1 << 15;
    let mut q = VecDeque::new();
    q.push_back((1, 1));
    let changed = u.propagate(q).unwrap();
    assert!(changed.contains(&1));
    for t in 0..16usize {
        assert_eq!(has_tile(u.cells[1], t), t & 4 != 0);
    }
    u.reset();
    assert!(u.cells.iter().all(|c| *c == 0xFFFF));
}

#[test]
fn contradiction_is_reported() {
    let mut w = Wfc::new(1, 1);
    w.cells[0] = 1 << 15;
    assert_eq!(w.apply_closed_boundary(), Err(WfcError::Boundary { x: 0, y: 0 }));
    let mut v = Wfc::new(2, 1);
    v.cells[0] = 1 << 2;
    v.cells[1] = 1 << 0;
    let mut q = VecDeque::new();
    q.push_back((0, 0));
    assert_eq!(v.propagate(q), Err(WfcError::Contradiction { x: 1, y: 0 }));
    let mut z = Wfc::new(3, 1);
    z.cells[0] = 1 << 3;
    z.cells[1] = 0b11;
    z.cells[2] = 0b111;
    let mut rng = Rng::new(1);
    assert_eq!(z.pick_lowest_entropy_cell(&mut rng), Some(1));
    z.cells[1] = 1;
    z.cells[2] = 1;
    assert_eq!(z.pick_lowest_entropy_cell(&mut rng), None);
}

#[test]
fn steps_collapse_until_finished() {
    let mut w = Wfc::new(5, 4);
    w.apply_closed_boundary().unwrap();
    let mut rng = Rng::new(3);
    let mut steps = 0;
    loop {
        let report = w.step(&mut rng).unwrap();
        if report.finished {
            assert!(report.collapsed.is_none());
            break;
        }
        let c = report.collapsed.unwrap();
        assert!(w.is_collapsed(c));
        assert_eq!(w.tile_mask_at(c), Some(report.mask));
        steps += 1;
        assert!(steps <= 20);
    }
    for i in 0..w.cells.len() {
        assert!(w.is_collapsed(i));
    }
    assert_consistent(&w);
}

#[test]
fn session_runs_to_a_consistent_map() {
    let mut s = WfcSession::new(12, 8, 0xC0FFEE, 4);
    assert!(!s.contradiction);
    assert_eq!(s.status, Status::Reset);
    assert_eq!(s.last_collapsed, None);
    s.step_once();
    assert!(matches!(s.status, Status::Collapsed { .. } | Status::Finished | Status::Failed { .. }));
    s.run_to_end();
    assert!(s.finished || s.contradiction);
    if s.finished {
        assert_eq!(s.status, Status::Finished);
        assert_consistent(&s.wfc);
        let before = s.wfc.cells.clone();
        s.step_once();
        assert_eq!(s.wfc.cells, before);
    }
    s.reset_world();
    assert!(!s.finished);
    assert_eq!(s.width, 12);
    assert!(s.wfc.cells.iter().all(|c| c.count_ones() >= 1));
}

#[test]
fn sessions_with_one_seed_agree() {
    let mut a = WfcSession::new(10, 6, 42, 3);
    let mut b = WfcSession::new(10, 6, 42, 3);
    a.run_to_end();
    b.run_to_end();
    assert_eq!(a.wfc.cells, b.wfc.cells);
    assert_eq!(a.status, b.status);
}

#[test]
fn finished_runs_lay_closed_road_networks() {
    let mut finished_runs = 0;
    for seed in 1..25u64 {
        let mut s = WfcSession::new(9, 7, seed, 3);
        s.run_to_end();
        assert!(s.finished || s.contradiction);
        if s.finished {
            finished_runs += 1;
            for i in 0..s.wfc.cells.len() {
                assert!(s.wfc.is_collapsed(i));
            }
            assert_consistent(&s.wfc);
        }
    }
    assert!(finished_runs > 0);
}

#[test]
fn propagation_keeps_exactly_the_fitting_tiles() {
    let mut w = Wfc::new(2, 1);
    w.cells[0] = 1u64 << 2;
    let mut q = VecDeque::new();
    q.push_back((0, 0));
    let changed = w.propagate(q).unwrap();
    assert_eq!(changed, vec![1]);
    assert_eq!(w.cells[0], 1u64 << 2);
    assert_eq!(w.cells[1], 0xFF00);
}

#[test]
fn seeding_fixes_the_first_drawn_cell() {
    let mut w = Wfc::new(6, 5);
    w.apply_closed_boundary().unwrap();
    let mut probe = Rng::new(11);
    let x = 1 + probe.gen_range(4);
    let y = 1 + probe.gen_range(3);
    let t = [5u8, 10, 3, 6, 9, 12, 7, 11, 13, 14, 15][probe.gen_range(11)] as usize;
    let i = w.index(x, y);
    assert!(has_tile(w.cells[i], t));
    let mut rng = Rng::new(11);
    let changed = w.seed_some_roads(&mut rng, 1).unwrap();
    assert_eq!(changed[0], i);
    assert_eq!(w.cells[i], 1u64 << t);
    assert_eq!(rng.state, probe.state);
}

#[test]
fn closing_a_small_border_lists_the_border_cells() {
    let mut w = Wfc::new(3, 3);
    assert_eq!(w.apply_closed_boundary(), Ok(vec![0, 1, 2, 3, 5, 6, 7, 8]));
    let counts: Vec<u32> = w.cells.iter().map(|c| c.count_ones()).collect();
    assert_eq!(counts, vec![4, 8, 4, 8, 16, 8, 4, 8, 4]);
}

#[test]
fn equal_settings_reset_alike() {
    let mut a = WfcSession::new(7, 6, 99, 3);
    let mut b = WfcSession::new(7, 6, 99, 3);
    b.run_to_end();
    a.reset_world();
    b.reset_world();
    assert_eq!(a.wfc.cells, b.wfc.cells);
    assert_eq!(a.rng.state, b.rng.state);
    assert_eq!(a.status, b.status);
    assert_eq!(a.contradiction, b.contradiction);
    assert!(!a.finished && a.last_collapsed.is_none());
}

#[test]
fn a_step_draws_from_the_callers_generator() {
    let mut w = Wfc::new(4, 4);
    w.apply_closed_boundary().unwrap();
    let mut rng = Rng::new(5);
    let before = rng.state;
    let report = w.step(&mut rng).unwrap();
    assert!(report.collapsed.is_some());
    assert_ne!(rng.state, before);
    let mut probe = Rng::new(5);
    probe.next_u64();
    probe.next_u64();
    assert_eq!(rng.state, probe.state);
}

#[test]
fn advancing_equals_single_steps() {
    let mut a = WfcSession::new(9, 7, 4242, 4);
    let mut b = WfcSession::new(9, 7, 4242, 4);
    a.advance(6);
    for _ in 0..6 {
        b.step_once();
    }
    assert_eq!(a.wfc.cells, b.wfc.cells);
    assert_eq!(a.rng.state, b.rng.state);
    assert_eq!(a.status, b.status);
    assert_eq!(a.last_collapsed, b.last_collapsed);
    assert_eq!(a.last_changed, b.last_changed);
    assert_eq!((a.finished, a.contradiction), (b.finished, b.contradiction));
    a.advance(10_000);
    assert!(a.finished || a.contradiction);
    let frozen = a.wfc.cells.clone();
    a.advance(3);
    assert_eq!(a.wfc.cells, frozen);
}
