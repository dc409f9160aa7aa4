use engine::physics::{
    feels_drag, has_direction, separating, PhysicsWorld, CORRECTION_PERCENT, CORRECTION_SLOP,
    QUERY_SKIN,
};
use engine::spatial_db::{
    closest_hit, nearer_root, Aabb, CellRect, EntityKind, Placement, RayHit, SpatialDb,
};

// The arithmetic on coordinates that a host of the library does: cells and
// boxes of entities, the exact tests of queries, and the physics step.

fn f(bits: u32) -> f32 {
    f32::from_bits(bits)
}

fn cell_of(cell_size: f32, x: f32, y: f32) -> (i32, i32) {
    ((x / cell_size).floor() as i32, (y / cell_size).floor() as i32)
}

fn cells_between(cell_size: f32, min_x: f32, min_y: f32, max_x: f32, max_y: f32) -> CellRect {
    let lo = cell_of(cell_size, min_x, min_y);
    let hi = cell_of(cell_size, max_x, max_y);
    CellRect { min_x: lo.0, min_y: lo.1, max_x: hi.0, max_y: hi.1 }
}

fn place(cell_size: f32, min_x: f32, min_y: f32, max_x: f32, max_y: f32) -> Placement {
    Placement {
        cover: cells_between(cell_size, min_x, min_y, max_x, max_y),
        bounds: Aabb {
            min_x: min_x.to_bits(),
            min_y: min_y.to_bits(),
            max_x: max_x.to_bits(),
            max_y: max_y.to_bits(),
        },
    }
}

fn place_circle(cell_size: f32, x: f32, y: f32, r: f32) -> Placement {
    place(cell_size, x - r, y - r, x + r, y + r)
}

fn place_segment(cell_size: f32, x1: f32, y1: f32, x2: f32, y2: f32) -> Placement {
    place(cell_size, x1.min(x2), y1.min(y2), x1.max(x2), y1.max(y2))
}

fn add_circle(db: &mut SpatialDb, x: f32, y: f32, r: f32, tag: &str) -> u64 {
    let p = place_circle(f(db.cell_size()), x, y, r);
    db.add_circle(x.to_bits(), y.to_bits(), r.to_bits(), tag, p)
}

fn add_segment(db: &mut SpatialDb, x1: f32, y1: f32, x2: f32, y2: f32, tag: &str) -> u64 {
    let p = place_segment(f(db.cell_size()), x1, y1, x2, y2);
    db.add_segment(x1.to_bits(), y1.to_bits(), x2.to_bits(), y2.to_bits(), tag, p)
}

fn position(db: &SpatialDb, id: u64) -> Option<(f32, f32)> {
    db.get_position(id).map(|(x, y)| (f(x), f(y)))
}

fn update_position(db: &mut SpatialDb, id: u64, x: f32, y: f32) {
    let cs = f(db.cell_size());
    match db.get_entity_info(id) {
        Some((_, _, EntityKind::Circle { radius })) => {
            let p = place_circle(cs, x, y, f(radius));
            db.update_position(id, x.to_bits(), y.to_bits(), 0, 0, p);
        }
        Some((ex, ey, EntityKind::Segment { x2, y2 })) => {
            let nx2 = f(x2) + (x - f(ex));
            let ny2 = f(y2) + (y - f(ey));
            let p = place_segment(cs, x, y, nx2, ny2);
            db.update_position(id, x.to_bits(), y.to_bits(), nx2.to_bits(), ny2.to_bits(), p);
        }
        None => {}
    }
}

fn query_rect(
    db: &SpatialDb,
    min_x: f32,
    min_y: f32,
    max_x: f32,
    max_y: f32,
    tag: Option<&str>,
) -> Vec<u64> {
    let cs = f(db.cell_size());
    let window = Aabb {
        min_x: min_x.to_bits(),
        min_y: min_y.to_bits(),
        max_x: max_x.to_bits(),
        max_y: max_y.to_bits(),
    };
    db.query_rect(window, cells_between(cs, min_x, min_y, max_x, max_y), tag)
}

fn query_range(db: &SpatialDb, x: f32, y: f32, range: f32, tag: Option<&str>) -> Vec<u64> {
    let cs = f(db.cell_size());
    let area = cells_between(cs, x - range, y - range, x + range, y + range);
    let mut out = Vec::new();
    for id in db.query_cells(area, tag) {
        let (ex, ey, kind) = match db.get_entity_info(id) {
            Some(info) => info,
            None => continue,
        };
        let (ex, ey) = (f(ex), f(ey));
        let inside = match kind {
            EntityKind::Circle { radius } => {
                let dx = x - ex;
                let dy = y - ey;
                let r_sum = range + f(radius);
                dx * dx + dy * dy <= r_sum * r_sum
            }
            EntityKind::Segment { x2, y2 } => {
                let (x2, y2) = (f(x2), f(y2));
                let seg_len2 = (x2 - ex).powi(2) + (y2 - ey).powi(2);
                let mut t = ((x - ex) * (x2 - ex) + (y - ey) * (y2 - ey)) / seg_len2;
                t = t.max(0.0).min(1.0);
                let cx = ex + t * (x2 - ex);
                let cy = ey + t * (y2 - ey);
                (x - cx).powi(2) + (y - cy).powi(2) <= range * range
            }
        };
        if inside {
            out.push(id);
        }
    }
    out
}

fn cast_ray(
    db: &SpatialDb,
    x1: f32,
    y1: f32,
    angle_deg: f32,
    max_dist: f32,
    tag: Option<&str>,
) -> Option<(u64, f32, f32, f32)> {
    let cs = f(db.cell_size());
    let rad = angle_deg.to_radians();
    let dx = rad.cos();
    let dy = rad.sin();
    let x2 = x1 + dx * max_dist;
    let y2 = y1 + dy * max_dist;

    let steps = (max_dist / cs).ceil() as i32;
    let mut samples = Vec::new();
    for i in 0..=steps {
        samples.push(cell_of(cs, x1 + dx * cs * (i as f32), y1 + dy * cs * (i as f32)));
    }

    let mut hits = Vec::new();
    for id in db.ray_candidates(&samples, tag) {
        let (ex, ey, kind) = match db.get_entity_info(id) {
            Some(info) => info,
            None => continue,
        };
        let (ex, ey) = (f(ex), f(ey));
        match kind {
            EntityKind::Circle { radius } => {
                let radius = f(radius);
                let fx = x1 - ex;
                let fy = y1 - ey;
                let a = dx * dx + dy * dy;
                let b = 2.0 * (fx * dx + fy * dy);
                let c = (fx * fx + fy * fy) - radius * radius;
                let discriminant = b * b - 4.0 * a * c;
                if discriminant >= 0.0 {
                    let root = discriminant.sqrt();
                    let near = (-b - root) / (2.0 * a);
                    let far = (-b + root) / (2.0 * a);
                    let first = nearer_root(near.to_bits(), far.to_bits()).map(f32::from_bits);
                    if let Some(t) = first.filter(|t| *t <= max_dist) {
                        hits.push(RayHit {
                            id,
                            t: (t / max_dist).to_bits(),
                            x: (x1 + dx * t).to_bits(),
                            y: (y1 + dy * t).to_bits(),
                        });
                    }
                }
            }
            EntityKind::Segment { x2: wx2, y2: wy2 } => {
                let (wx2, wy2) = (f(wx2), f(wy2));
                let den = (x1 - x2) * (ey - wy2) - (y1 - y2) * (ex - wx2);
                if den != 0.0 {
                    let t = ((x1 - ex) * (ey - wy2) - (y1 - ey) * (ex - wx2)) / den;
                    let u = -((x1 - x2) * (y1 - ey) - (y1 - y2) * (x1 - ex)) / den;
                    if t >= 0.0 && t <= 1.0 && u >= 0.0 && u <= 1.0 {
                        hits.push(RayHit {
                            id,
                            t: t.to_bits(),
                            x: (x1 + t * (x2 - x1)).to_bits(),
                            y: (y1 + t * (y2 - y1)).to_bits(),
                        });
                    }
                }
            }
        }
    }
    closest_hit(&hits).map(|h| (h.id, f(h.t), f(h.x), f(h.y)))
}

fn add_body(world: &mut PhysicsWorld, id: u64, mass: f32, restitution: f32, drag: f32) {
    world.add_body(
        id,
        mass.to_bits(),
        (1.0 / mass).to_bits(),
        restitution.to_bits(),
        drag.to_bits(),
    );
}

fn velocity(world: &PhysicsWorld, id: u64) -> Option<(f32, f32)> {
    world.get_velocity(id).map(|(x, y)| (f(x), f(y)))
}

fn step(world: &mut PhysicsWorld, db: &mut SpatialDb, dt: f32) {
    let (gx, gy) = world.get_gravity();
    let (gx, gy) = (f(gx), f(gy));

    let mut updates = Vec::new();
    for id in world.dynamic_ids() {
        let body = world.get_body(id).unwrap();
        let mut vx = f(body.vx) + gx * dt;
        let mut vy = f(body.vy) + gy * dt;
        if feels_drag(body.drag) {
            let drag = f(body.drag);
            vx *= 1.0 - drag * dt;
            vy *= 1.0 - drag * dt;
        }
        world.set_velocity(id, vx.to_bits(), vy.to_bits());
        if let Some(pos) = position(db, id) {
            updates.push((id, pos.0 + vx * dt, pos.1 + vy * dt));
        }
    }
    for (id, x, y) in updates {
        update_position(db, id, x, y);
    }

    for id_a in world.dynamic_ids() {
        let (pos_a, radius_a) = match db.get_entity_info(id_a) {
            Some((x, y, EntityKind::Circle { radius })) => ((f(x), f(y)), f(radius)),
            _ => continue,
        };
        let body_a = world.get_body(id_a).unwrap();
        let inv_mass_a = f(body_a.inv_mass);

        for id_b in query_range(db, pos_a.0, pos_a.1, radius_a + f(QUERY_SKIN), None) {
            if id_a == id_b {
                continue;
            }
            let (x_b, y_b, kind_b) = match db.get_entity_info(id_b) {
                Some((x, y, k)) => (f(x), f(y), k),
                None => continue,
            };
            let collision = match kind_b {
                EntityKind::Circle { radius } => {
                    let dx = x_b - pos_a.0;
                    let dy = y_b - pos_a.1;
                    let dist_sq = dx * dx + dy * dy;
                    let r_sum = radius_a + f(radius);
                    if dist_sq < r_sum * r_sum && has_direction(dist_sq.to_bits()) {
                        let dist = dist_sq.sqrt();
                        Some((dx / dist, dy / dist, r_sum - dist))
                    } else {
                        None
                    }
                }
                EntityKind::Segment { x2, y2 } => {
                    let dx_seg = f(x2) - x_b;
                    let dy_seg = f(y2) - y_b;
                    let len_sq = dx_seg * dx_seg + dy_seg * dy_seg;
                    let mut t: f32 = 0.0;
                    if len_sq > 0.0 {
                        t = ((pos_a.0 - x_b) * dx_seg + (pos_a.1 - y_b) * dy_seg) / len_sq;
                        t = t.max(0.0).min(1.0);
                    }
                    let dx = pos_a.0 - (x_b + t * dx_seg);
                    let dy = pos_a.1 - (y_b + t * dy_seg);
                    let dist_sq = dx * dx + dy * dy;
                    if dist_sq < radius_a * radius_a && has_direction(dist_sq.to_bits()) {
                        let dist = dist_sq.sqrt();
                        Some((-dx / dist, -dy / dist, radius_a - dist))
                    } else {
                        None
                    }
                }
            };
            let (nx, ny, penetration) = match collision {
                Some(c) => c,
                None => continue,
            };

            let other = world.collider(id_b);
            let inv_mass_b = f(other.inv_mass);
            let total_inv_mass = inv_mass_a + inv_mass_b;
            if !world.report_contact(id_a, id_b, total_inv_mass.to_bits()) {
                continue;
            }

            let correction = (penetration - f(CORRECTION_SLOP)).max(0.0f32) / total_inv_mass
                * f(CORRECTION_PERCENT);
            let cx = nx * correction;
            let cy = ny * correction;
            update_position(db, id_a, pos_a.0 - cx * inv_mass_a, pos_a.1 - cy * inv_mass_a);
            if other.gives_way() {
                if let Some(pos_b) = position(db, id_b) {
                    update_position(db, id_b, pos_b.0 + cx * inv_mass_b, pos_b.1 + cy * inv_mass_b);
                }
            }

            let (vax, vay) = velocity(world, id_a).unwrap();
            let rvx = f(other.vx) - vax;
            let rvy = f(other.vy) - vay;
            let vel_along_normal = rvx * nx + rvy * ny;
            if separating(vel_along_normal.to_bits()) {
                continue;
            }
            let e = f(body_a.restitution).min(f(other.restitution));
            let j = -(1.0 + e) * vel_along_normal / total_inv_mass;
            let ix = j * nx;
            let iy = j * ny;
            world.set_velocity(
                id_a,
                (vax - ix * inv_mass_a).to_bits(),
                (vay - iy * inv_mass_a).to_bits(),
            );
            if other.gives_way() {
                if let Some((vbx, vby)) = velocity(world, id_b) {
                    world.set_velocity(
                        id_b,
                        (vbx + ix * inv_mass_b).to_bits(),
                        (vby + iy * inv_mass_b).to_bits(),
                    );
                }
            }
        }
    }
}

fn sorted(mut v: Vec<u64>) -> Vec<u64> {
    v.sort();
    v
}

#[test]
fn ids_start_at_one_and_are_never_reused() {
    let mut db = SpatialDb::new(10f32.to_bits());
    let a = add_circle(&mut db, 0.0, 0.0, 1.0, "a");
    let b = add_segment(&mut db, 0.0, 0.0, 5.0, 5.0, "b");
    assert_eq!((a, b), (1, 2));
    db.remove(a);
    db.remove(b);
    let c = add_circle(&mut db, 0.0, 0.0, 1.0, "c");
    assert_eq!(c, 3);
    assert!(db.has_free_id());
}

#[test]
fn positions_and_kinds_read_back() {
    let mut db = SpatialDb::new(10f32.to_bits());
    let a = add_circle(&mut db, 1.5, -2.5, 3.0, "a");
    let b = add_segment(&mut db, 0.0, 1.0, 5.0, 6.0, "b");
    assert_eq!(position(&db, a), Some((1.5, -2.5)));
    assert_eq!(
        db.get_entity_info(a),
        Some((1.5f32.to_bits(), (-2.5f32).to_bits(), EntityKind::Circle { radius: 3f32.to_bits() }))
    );
    assert_eq!(
        db.get_entity_info(b),
        Some((
            0f32.to_bits(),
            1f32.to_bits(),
            EntityKind::Segment { x2: 5f32.to_bits(), y2: 6f32.to_bits() }
        ))
    );
    assert_eq!(db.get_position(99), None);
    assert_eq!(db.get_entity_info(99), None);
    assert_eq!(db.get_entity(99), None);
}

#[test]
fn an_entity_is_found_in_every_cell_it_covers_and_in_no_other() {
    let mut db = SpatialDb::new(10f32.to_bits());
    // covers cells (-1,-1) .. (1,1)
    let a = add_circle(&mut db, 5.0, 5.0, 10.0, "a");
    for cx in -3..=3 {
        for cy in -3..=3 {
            let cell = CellRect { min_x: cx, min_y: cy, max_x: cx, max_y: cy };
            let found = db.query_cells(cell, None).contains(&a);
            let covered = (-1..=1).contains(&cx) && (-1..=1).contains(&cy);
            assert_eq!(found, covered, "cell ({cx},{cy})");
        }
    }
}

#[test]
fn moving_an_entity_moves_it_between_cells() {
    let mut db = SpatialDb::new(10f32.to_bits());
    let a = add_circle(&mut db, 5.0, 5.0, 1.0, "a");
    let here = CellRect { min_x: 0, min_y: 0, max_x: 0, max_y: 0 };
    let there = CellRect { min_x: 10, min_y: 10, max_x: 10, max_y: 10 };
    assert_eq!(db.query_cells(here, None), vec![a]);
    assert_eq!(db.query_cells(there, None), Vec::<u64>::new());
    update_position(&mut db, a, 105.0, 105.0);
    assert_eq!(db.query_cells(here, None), Vec::<u64>::new());
    assert_eq!(db.query_cells(there, None), vec![a]);
    assert_eq!(position(&db, a), Some((105.0, 105.0)));
}

#[test]
fn a_segment_moves_rigidly() {
    let mut db = SpatialDb::new(10f32.to_bits());
    let s = add_segment(&mut db, 0.0, 0.0, 3.0, 4.0, "s");
    update_position(&mut db, s, 10.0, 20.0);
    assert_eq!(
        db.get_entity_info(s),
        Some((
            10f32.to_bits(),
            20f32.to_bits(),
            EntityKind::Segment { x2: 13f32.to_bits(), y2: 24f32.to_bits() }
        ))
    );
}

#[test]
fn moving_a_circle_keeps_its_radius() {
    let mut db = SpatialDb::new(10f32.to_bits());
    let c = add_circle(&mut db, 0.0, 0.0, 2.5, "c");
    update_position(&mut db, c, 1.0, 1.0);
    assert_eq!(
        db.get_entity_info(c),
        Some((1f32.to_bits(), 1f32.to_bits(), EntityKind::Circle { radius: 2.5f32.to_bits() }))
    );
}

#[test]
fn moving_or_removing_what_is_not_there_changes_nothing() {
    let mut db = SpatialDb::new(10f32.to_bits());
    let a = add_circle(&mut db, 5.0, 5.0, 1.0, "a");
    update_position(&mut db, 42, 1.0, 1.0);
    db.remove(42);
    assert_eq!(position(&db, a), Some((5.0, 5.0)));
    assert_eq!(query_range(&db, 5.0, 5.0, 1.0, None), vec![a]);
}

#[test]
fn a_removed_entity_is_found_nowhere() {
    let mut db = SpatialDb::new(10f32.to_bits());
    let a = add_circle(&mut db, 5.0, 5.0, 30.0, "a");
    let b = add_circle(&mut db, 5.0, 5.0, 30.0, "b");
    db.remove(a);
    assert_eq!(position(&db, a), None);
    let all = CellRect { min_x: -10, min_y: -10, max_x: 10, max_y: 10 };
    assert_eq!(db.query_cells(all, None), vec![b]);
}

#[test]
fn query_rect_takes_what_overlaps() {
    let mut db = SpatialDb::new(10f32.to_bits());
    let a = add_circle(&mut db, 5.0, 5.0, 1.0, "unit");
    let b = add_circle(&mut db, 50.0, 50.0, 1.0, "unit");
    let w = add_segment(&mut db, 0.0, 20.0, 100.0, 20.0, "wall");
    assert_eq!(sorted(query_rect(&db, 0.0, 0.0, 10.0, 10.0, None)), vec![a]);
    assert_eq!(sorted(query_rect(&db, 0.0, 0.0, 60.0, 60.0, None)), vec![a, b, w]);
    assert_eq!(sorted(query_rect(&db, 0.0, 0.0, 60.0, 60.0, Some("unit"))), vec![a, b]);
    assert_eq!(sorted(query_rect(&db, 0.0, 0.0, 60.0, 60.0, Some("wall"))), vec![w]);
    assert_eq!(query_rect(&db, 0.0, 0.0, 60.0, 60.0, Some("none")), Vec::<u64>::new());
    // in the same cell as a, but the boxes do not meet
    assert_eq!(query_rect(&db, 7.0, 7.0, 9.0, 9.0, None), Vec::<u64>::new());
    // touching counts
    assert_eq!(query_rect(&db, 6.0, 6.0, 9.0, 9.0, None), vec![a]);
}

#[test]
fn query_results_hold_each_id_once() {
    let mut db = SpatialDb::new(10f32.to_bits());
    // covers many cells
    let a = add_circle(&mut db, 0.0, 0.0, 45.0, "big");
    assert_eq!(query_rect(&db, -100.0, -100.0, 100.0, 100.0, None), vec![a]);
    assert_eq!(query_range(&db, 0.0, 0.0, 100.0, None), vec![a]);
}

#[test]
fn query_range_measures_to_the_circle_and_to_the_segment() {
    let mut db = SpatialDb::new(10f32.to_bits());
    let c = add_circle(&mut db, 20.0, 0.0, 5.0, "c");
    let s = add_segment(&mut db, 0.0, 30.0, 100.0, 30.0, "s");
    // centre distance 20 <= range 15 + radius 5
    assert_eq!(query_range(&db, 0.0, 0.0, 15.0, None), vec![c]);
    assert_eq!(query_range(&db, 0.0, 0.0, 14.0, None), Vec::<u64>::new());
    // 30 away from the segment
    assert_eq!(sorted(query_range(&db, 50.0, 0.0, 30.0, None)), vec![c, s]);
    assert_eq!(query_range(&db, 50.0, 0.0, 29.0, Some("s")), Vec::<u64>::new());
}

#[test]
fn raycast_hit_distance() {
    let mut db = SpatialDb::new(10f32.to_bits());
    let wall = add_segment(&mut db, 10.0, 0.0, 10.0, 10.0, "wall");
    let (id, t, hx, hy) = cast_ray(&db, 0.0, 5.0, 0.0, 100.0, Some("wall")).unwrap();
    assert_eq!(id, wall);
    assert!((t - 0.10).abs() < 1e-4, "t = {t}");
    assert!((hx - 10.0).abs() < 1e-3 && (hy - 5.0).abs() < 1e-3, "hit at ({hx},{hy})");
    assert_eq!(cast_ray(&db, 0.0, 5.0, 180.0, 100.0, Some("wall")), None);
}

#[test]
fn raycast_returns_the_nearest_and_heeds_the_tag() {
    let mut db = SpatialDb::new(10f32.to_bits());
    let far = add_segment(&mut db, 30.0, 0.0, 30.0, 10.0, "wall");
    let near = add_circle(&mut db, 20.0, 5.0, 2.0, "ball");
    let (id, t, _, _) = cast_ray(&db, 0.0, 5.0, 0.0, 100.0, None).unwrap();
    assert_eq!(id, near);
    assert!((t - 0.18).abs() < 1e-4, "t = {t}");
    let (id, t, _, _) = cast_ray(&db, 0.0, 5.0, 0.0, 100.0, Some("wall")).unwrap();
    assert_eq!(id, far);
    assert!((t - 0.30).abs() < 1e-4, "t = {t}");
    assert_eq!(cast_ray(&db, 0.0, 5.0, 0.0, 100.0, Some("ghost")), None);
}

#[test]
fn circle_bounce() {
    let mut db = SpatialDb::new(10f32.to_bits());
    let a = add_circle(&mut db, 0.0, 0.0, 1.0, "ball");
    let b = add_circle(&mut db, 1.9, 0.0, 1.0, "ball");
    let mut world = PhysicsWorld::new();
    add_body(&mut world, a, 1.0, 1.0, 0.0);
    add_body(&mut world, b, 1.0, 1.0, 0.0);
    world.set_velocity(a, 1f32.to_bits(), 0f32.to_bits());
    world.set_velocity(b, (-1f32).to_bits(), 0f32.to_bits());

    step(&mut world, &mut db, 0.01);

    let (vax, vay) = velocity(&world, a).unwrap();
    let (vbx, vby) = velocity(&world, b).unwrap();
    assert!((vax + 1.0).abs() < 1e-5 && vay.abs() < 1e-6, "a moves at ({vax},{vay})");
    assert!((vbx - 1.0).abs() < 1e-5 && vby.abs() < 1e-6, "b moves at ({vbx},{vby})");
    assert_eq!(world.get_collision_events(), vec![(a.min(b), a.max(b))]);
    assert_eq!(world.get_collision_events(), Vec::<(u64, u64)>::new());
}

#[test]
fn a_ball_bounces_off_a_wall_that_is_no_body() {
    let mut db = SpatialDb::new(10f32.to_bits());
    let wall = add_segment(&mut db, 5.0, -10.0, 5.0, 10.0, "wall");
    let ball = add_circle(&mut db, 4.2, 0.0, 1.0, "ball");
    let mut world = PhysicsWorld::new();
    add_body(&mut world, ball, 1.0, 1.0, 0.0);
    world.set_velocity(ball, 2f32.to_bits(), 0f32.to_bits());

    step(&mut world, &mut db, 0.01);

    let (vx, _) = velocity(&world, ball).unwrap();
    assert!((vx + 2.0).abs() < 1e-5, "ball moves at {vx}");
    // pushed back out of the wall
    let (x, _) = position(&db, ball).unwrap();
    assert!(x < 4.22, "ball is at {x}");
    assert_eq!(world.get_collision_events(), vec![(wall, ball)]);
    // the wall did not move
    assert_eq!(position(&db, wall), Some((5.0, -10.0)));
}

#[test]
fn gravity_and_drag_act_on_what_moves_only() {
    let mut db = SpatialDb::new(10f32.to_bits());
    let ball = add_circle(&mut db, 0.0, 0.0, 1.0, "ball");
    let rock = add_circle(&mut db, 500.0, 0.0, 1.0, "rock");
    let mut world = PhysicsWorld::new();
    add_body(&mut world, ball, 2.0, 0.5, 0.5);
    add_body(&mut world, rock, 0.0, 0.5, 0.0);
    world.set_gravity(0f32.to_bits(), 10f32.to_bits());

    step(&mut world, &mut db, 0.1);

    // v = (0 + 10 * 0.1) * (1 - 0.5 * 0.1) = 0.95 ; y = 0.95 * 0.1
    let (_, vy) = velocity(&world, ball).unwrap();
    assert!((vy - 0.95).abs() < 1e-6, "vy = {vy}");
    let (_, y) = position(&db, ball).unwrap();
    assert!((y - 0.095).abs() < 1e-6, "y = {y}");
    assert_eq!(velocity(&world, rock), Some((0.0, 0.0)));
    assert_eq!(position(&db, rock), Some((500.0, 0.0)));
    assert_eq!(world.get_collision_events(), Vec::<(u64, u64)>::new());
}

#[test]
fn a_contact_in_which_neither_side_gives_way_is_no_collision() {
    let mut db = SpatialDb::new(10f32.to_bits());
    let wall = add_segment(&mut db, 5.0, -10.0, 5.0, 10.0, "wall");
    // a body of infinite mass is not static, yet its inverse mass is zero
    let anvil = add_circle(&mut db, 4.5, 0.0, 1.0, "anvil");
    let mut world = PhysicsWorld::new();
    add_body(&mut world, anvil, f32::INFINITY, 1.0, 0.0);
    assert_eq!(world.dynamic_ids(), vec![anvil]);

    step(&mut world, &mut db, 0.01);

    assert_eq!(world.get_collision_events(), Vec::<(u64, u64)>::new());
    assert_eq!(position(&db, anvil), Some((4.5, 0.0)));
    assert_eq!(position(&db, wall), Some((5.0, -10.0)));
}

#[test]
fn circles_on_the_same_spot_do_not_collide() {
    let mut db = SpatialDb::new(10f32.to_bits());
    let a = add_circle(&mut db, 0.0, 0.0, 1.0, "ball");
    let b = add_circle(&mut db, 0.005, 0.0, 1.0, "ball");
    let mut world = PhysicsWorld::new();
    add_body(&mut world, a, 1.0, 1.0, 0.0);
    add_body(&mut world, b, 1.0, 1.0, 0.0);
    step(&mut world, &mut db, 0.01);
    assert_eq!(world.get_collision_events(), Vec::<(u64, u64)>::new());
}

#[test]
fn a_ray_that_starts_inside_a_circle_hits_it_on_the_way_out() {
    let mut db = SpatialDb::new(10f32.to_bits());
    let ball = add_circle(&mut db, 0.0, 0.0, 5.0, "ball");
    // the roots are -5 and 5: the nearer one that is not negative is 5
    let (id, t, hx, hy) = cast_ray(&db, 0.0, 0.0, 0.0, 100.0, None).unwrap();
    assert_eq!(id, ball);
    assert!((t - 0.05).abs() < 1e-5, "t = {t}");
    assert!((hx - 5.0).abs() < 1e-4 && hy.abs() < 1e-4, "hit at ({hx},{hy})");
    // out of reach
    assert_eq!(cast_ray(&db, 0.0, 0.0, 0.0, 4.0, None), None);
}

#[test]
fn a_circle_behind_the_ray_is_not_hit() {
    let mut db = SpatialDb::new(10f32.to_bits());
    add_circle(&mut db, -20.0, 0.0, 5.0, "ball");
    assert_eq!(cast_ray(&db, 0.0, 0.0, 0.0, 100.0, None), None);
}

#[test]
fn a_circle_centred_on_a_segment_is_not_resolved() {
    let mut db = SpatialDb::new(10f32.to_bits());
    let wall = add_segment(&mut db, -10.0, 0.0, 10.0, 0.0, "wall");
    let ball = add_circle(&mut db, 0.0, 0.0, 1.0, "ball");
    let mut world = PhysicsWorld::new();
    add_body(&mut world, ball, 1.0, 1.0, 0.0);
    step(&mut world, &mut db, 0.01);
    assert_eq!(world.get_collision_events(), Vec::<(u64, u64)>::new());
    assert_eq!(position(&db, ball), Some((0.0, 0.0)));
    assert_eq!(velocity(&world, ball), Some((0.0, 0.0)));
    assert_eq!(position(&db, wall), Some((-10.0, 0.0)));
}

#[test]
fn the_nearer_root_that_is_not_negative() {
    let pick = |a: f32, b: f32| nearer_root(a.to_bits(), b.to_bits()).map(f32::from_bits);
    assert_eq!(pick(2.0, 5.0), Some(2.0));
    assert_eq!(pick(5.0, 2.0), Some(2.0));
    assert_eq!(pick(-5.0, 5.0), Some(5.0));
    assert_eq!(pick(5.0, -5.0), Some(5.0));
    assert_eq!(pick(-1.0, -2.0), None);
    assert_eq!(pick(0.0, 3.0), Some(0.0));
    assert_eq!(pick(3.0, 3.0), Some(3.0));
    assert_eq!(pick(f32::NAN, 3.0), Some(3.0));
    assert_eq!(pick(3.0, f32::NAN), Some(3.0));
    assert_eq!(pick(f32::NAN, f32::NAN), None);
}
