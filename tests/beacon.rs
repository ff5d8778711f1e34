use aoc2021::beacon::{
    orient, parse_scanner_input, parse_to_all_orientations, transform_scan, Axis, OceanMapper, Point, Scan,
};

#[test]
fn test_translated_required() {
    let scanner_0_point = Point { x: -618, y: -824, z: -621 };
    let scanner_1_point = Point { x: 686, y: 422, z: 578 };
    let scanner_1_scan = Scan { scanner_id: 1, points: vec![scanner_1_point] };
    let scanner_1_scans = transform_scan(scanner_1_scan);

    for scan in scanner_1_scans {
        let point = scan.points[0];
        let trans = point.translation_needed_to(&scanner_0_point);
        println!("{:?} => {:?}", point, trans);
    }
}

#[test]
fn quarter_turns() {
    let p = Point { x: 1, y: 2, z: 3 };
    assert_eq!(p.rotate_around_x(), Point { x: 1, y: -3, z: 2 });
    assert_eq!(p.rotate_around_y(), Point { x: 3, y: 2, z: -1 });
    assert_eq!(p.rotate_around_z(), Point { x: 2, y: -1, z: 3 });
    assert_eq!(p.rotate_around_x_times(3), Point { x: 1, y: 3, z: -2 });
    assert_eq!(p.rotate_times(2, Axis::Z), Point { x: -1, y: -2, z: 3 });
}

#[test]
fn half_turns_face_the_other_way() {
    let p = Point { x: 1, y: 2, z: 3 };
    assert_eq!(p.face_inverse_x(), Point { x: -1, y: 2, z: -3 });
    assert_eq!(p.face_inverse_y(), Point { x: -1, y: -2, z: 3 });
    assert_eq!(p.face_inverse_z(), Point { x: 1, y: -2, z: -3 });
}

#[test]
fn twenty_four_distinct_orientations() {
    let p = Point { x: 1, y: 2, z: 3 };
    let scans = transform_scan(Scan { scanner_id: 4, points: vec![p] });
    assert_eq!(scans.len(), 24);
    assert_eq!(scans[0].points[0], p);
    for (k, scan) in scans.iter().enumerate() {
        assert_eq!(scan.scanner_id, 4);
        assert_eq!(scan.points[0], orient(&p, k));
        for other in &scans[k + 1..] {
            assert_ne!(scan.points[0], other.points[0]);
        }
    }
}

#[test]
fn translation_and_distance() {
    let a = Point { x: 5, y: -2, z: 0 };
    let b = Point { x: -1, y: 4, z: 10 };
    let t = a.translation_needed_to(&b);
    assert_eq!(t, Point { x: -6, y: 6, z: 10 });
    assert_eq!(a.translate(&t), b);
    assert_eq!(a.dist_to(&b), 22);
    assert_eq!(Point::origin().dist_to(&Point::origin()), 0);
}

#[test]
fn scan_translate_moves_every_point() {
    let scan = Scan { scanner_id: 2, points: vec![Point { x: 1, y: 1, z: 1 }, Point { x: -3, y: 0, z: 7 }] };
    let moved = scan.translate(&Point { x: 10, y: 20, z: 30 });
    assert_eq!(moved.scanner_id, 2);
    assert_eq!(moved.points, vec![Point { x: 11, y: 21, z: 31 }, Point { x: 7, y: 20, z: 37 }]);
    let flipped = scan.transform(|p| p.face_inverse_x());
    assert_eq!(flipped.points[1], Point { x: 3, y: 0, z: -7 });
}

fn twelve_points() -> Vec<Point> {
    (0..12).map(|i| Point { x: i * 7 - 40, y: (i * i) % 13 - 6, z: 100 - i * 3 }).collect()
}

fn shifted(points: &[Point], d: Point) -> Vec<Point> {
    points.iter().map(|p| Point { x: p.x + d.x, y: p.y + d.y, z: p.z + d.z }).collect()
}

#[test]
fn overlaps_finds_the_shared_offset() {
    let a = Scan { scanner_id: 0, points: twelve_points() };
    let b = Scan { scanner_id: 1, points: shifted(&twelve_points(), Point { x: 5, y: -3, z: 2 }) };
    assert_eq!(a.overlaps(&b), Some(Point { x: 5, y: -3, z: 2 }));
    assert_eq!(b.overlaps(&a), Some(Point { x: -5, y: 3, z: -2 }));
    let eleven = Scan { scanner_id: 2, points: twelve_points()[..11].to_vec() };
    assert_eq!(eleven.overlaps(&b), None);
}

#[test]
fn parses_a_scan() {
    let scan = parse_scanner_input("--- scanner 3 ---\n1,2,3\n-4,5,-6\n").unwrap();
    assert_eq!(scan.scanner_id, 3);
    assert_eq!(scan.points, vec![Point { x: 1, y: 2, z: 3 }, Point { x: -4, y: 5, z: -6 }]);
    let scan = parse_scanner_input("--- scanner 12 ---").unwrap();
    assert_eq!(scan.scanner_id, 12);
    assert!(scan.points.is_empty());
    assert!(parse_scanner_input("--- scanner x ---\n1,2,3").is_none());
    assert!(parse_scanner_input("--- scanner 1 ---\n1,2").is_none());
}

#[test]
fn parses_all_scans_in_every_orientation() {
    let input = "--- scanner 0 ---\n1,2,3\n\n--- scanner 1 ---\n4,5,6\n7,8,9\n\n--- scanner 2 ---\n0,0,1\n";
    let (first, rest) = parse_to_all_orientations(input).unwrap();
    assert_eq!(first.scanner_id, 0);
    assert_eq!(first.points, vec![Point { x: 1, y: 2, z: 3 }]);
    assert_eq!(rest.len(), 2);
    assert_eq!(rest[0].0, 1);
    assert_eq!(rest[0].1.len(), 24);
    assert_eq!(rest[0].1[0].points, vec![Point { x: 4, y: 5, z: 6 }, Point { x: 7, y: 8, z: 9 }]);
    assert_eq!(rest[0].1[4].points[0], Point { x: -4, y: 5, z: -6 });
    assert_eq!(rest[1].0, 2);
    assert!(parse_to_all_orientations("--- scanner 0 ---\n1,2,3\n\noops").is_none());
}

#[test]
fn triangulates_a_shifted_scanner() {
    let d = Point { x: 60, y: -20, z: 5 };
    let mut seen_by_1 = shifted(&twelve_points(), Point { x: -d.x, y: -d.y, z: -d.z });
    seen_by_1.push(Point { x: 1, y: 1, z: 1 });
    let scanner_0 = Scan { scanner_id: 0, points: twelve_points() };
    let relative = vec![(1usize, transform_scan(Scan { scanner_id: 1, points: seen_by_1 }))];
    let mut mapper = OceanMapper::from_scans(scanner_0, relative);
    assert!(mapper.triangulate_scanners());
    assert!(mapper.relative_scans_by_id.is_empty());
    assert!(mapper.unprocessed_absolute_scan_index_queue.is_empty());
    assert_eq!(mapper.absolute_scans.len(), 2);
    assert_eq!(mapper.absolute_scans[1].0, d);
    assert_eq!(mapper.absolute_scans[1].1.scanner_id, 1);
    assert_eq!(mapper.count_distinct_points(), 13);
    assert_eq!(mapper.max_distance_between_scanners(), 85);
}

#[test]
fn unmatched_scanner_stays_unplaced() {
    let scanner_0 = Scan { scanner_id: 0, points: twelve_points() };
    let far = Scan { scanner_id: 1, points: vec![Point { x: 1, y: 2, z: 3 }] };
    let mut mapper = OceanMapper::from_scans(scanner_0, vec![(1, transform_scan(far))]);
    assert!(mapper.triangulate_scanners());
    assert_eq!(mapper.absolute_scans.len(), 1);
    assert_eq!(mapper.relative_scans_by_id.len(), 1);
    assert_eq!(mapper.count_distinct_points(), 12);
    assert_eq!(mapper.max_distance_between_scanners(), 0);
}
