use scrap2_bot::cloud::{cloud_route, CloudMove};
use scrap2_bot::detector::{DetectionResult, ObjectDetector};
use scrap2_bot::geometry::{Point, Scale};
use scrap2_bot::merges::{calculate_required_merges, decimal_chars};
use scrap2_bot::template::Image;

fn store(names: &[&str]) -> ObjectDetector {
    let mut d = ObjectDetector::new(Scale::new(1, 1).unwrap());
    for n in names {
        let color = Image { width: 2, height: 2, channels: 3, data: vec![0; 12] };
        let gray = Image { width: 2, height: 2, channels: 1, data: vec![0; 4] };
        d.add_template(n, color, gray, 800_000, 10, 0, 0, 0, None, false).unwrap();
    }
    d
}

fn barrel(name: &str, x: i32, y: i32) -> DetectionResult {
    DetectionResult { object_name: name.to_string(), location: Point { x, y }, confidence: 900_000 + x }
}

#[test]
fn merge_round_pairs_equal_barrels() {
    let d = store(&["Barrel 1", "Barrel 2", "Barrel 3", "Barrel 4"]);
    let barrels = vec![
        barrel("Barrel 1", 1, 0),
        barrel("Barrel 1", 2, 0),
        barrel("Barrel 2", 3, 0),
        barrel("Barrel 1", 4, 0),
        barrel("Barrel 2", 5, 0),
    ];
    let (plan, after) = d.plan_merges(&barrels);
    assert_eq!(plan, vec![(0, 1, 2), (2, 4, 3)]);
    let got: Vec<(String, i32, i32)> =
        after.iter().map(|b| (b.object_name.clone(), b.location.x, b.confidence)).collect();
    assert_eq!(
        got,
        vec![
            ("Barrel 3".to_string(), 5, 900_005),
            ("Barrel 2".to_string(), 2, 900_002),
            ("Barrel 1".to_string(), 4, 900_004),
        ]
    );
}

#[test]
fn no_merge_without_next_template() {
    let d = store(&["Barrel 1", "Barrel 2"]);
    let barrels = vec![barrel("Barrel 2", 1, 1), barrel("Barrel 2", 2, 2)];
    let (plan, after) = d.plan_merges(&barrels);
    assert!(plan.is_empty());
    assert_eq!(after.len(), 2);
    assert_eq!(d.find_barrel_template(2), Some(1));
    assert_eq!(d.find_barrel_template(3), None);
}

#[test]
fn decimal_digits() {
    assert_eq!(decimal_chars(0), vec!['0']);
    assert_eq!(decimal_chars(407), vec!['4', '0', '7']);
}

#[test]
fn required_merges_counts_down_the_levels() {
    let b = |l: u32| barrel(&format!("Barrel {}", l), 0, 0);
    assert_eq!(calculate_required_merges(&[b(3), b(3), b(2)]), Some((2, 3, 1)));
    assert_eq!(calculate_required_merges(&[b(3), b(2), b(2)]), Some((2, 3, 1)));
    assert_eq!(calculate_required_merges(&[b(3), b(1)]), Some((1, 3, 3)));
    assert_eq!(calculate_required_merges(&[]), Some((0, 0, 2)));
    assert_eq!(calculate_required_merges(&[b(40), b(0)]), None);
}

#[test]
fn cloud_sweep_route() {
    let r = cloud_route(0, 0, 110, 1100, 5);
    assert_eq!(r.len(), 17);
    assert_eq!(r[0], CloudMove::Glide(9, 150));
    assert_eq!(
        &r[1..5],
        &[CloudMove::Glide(101, 150), CloudMove::Jump(101, 250), CloudMove::Glide(9, 250), CloudMove::Jump(9, 350)]
    );
    assert_eq!(r[16], CloudMove::Jump(9, 950));
}

#[test]
fn cloud_route_in_a_short_window_only_approaches() {
    assert_eq!(cloud_route(10, 20, 100, 100, 0), vec![CloudMove::Glide(14, 79)]);
    assert_eq!(cloud_route(0, 0, 100, 5, 0), vec![CloudMove::Glide(4, 50)]);
    // the row step is truncated towards zero, as integer division does
    assert_eq!(cloud_route(0, 0, 100, -22, 0), vec![CloudMove::Glide(4, 48)]);
}
