use scrap2_bot::detector::{DetectionResult, ObjectDetector};
use scrap2_bot::geometry::{Point, Scale};
use scrap2_bot::peaks::{ScoreSurface, SCORE_ONE};
use scrap2_bot::template::{remove_backdrop, Image, ObjectTemplate, TemplateError};

fn color(w: usize, h: usize) -> Image {
    Image { width: w, height: h, channels: 3, data: vec![10u8; w * h * 3] }
}

fn gray(w: usize, h: usize) -> Image {
    Image { width: w, height: h, channels: 1, data: vec![10u8; w * h] }
}

fn add(d: &mut ObjectDetector, name: &str, min_distance: u32, always_active: bool) {
    d.add_template(name, color(4, 4), gray(4, 4), 800_000, min_distance, 1, 2, 3, None, always_active)
        .unwrap();
}

fn det(name: &str, x: i32, y: i32, confidence: i32) -> DetectionResult {
    DetectionResult { object_name: name.to_string(), location: Point { x, y }, confidence }
}

fn names(ds: &[DetectionResult]) -> Vec<String> {
    ds.iter().map(|d| d.object_name.clone()).collect()
}

/// "Empty" (always active) followed by "Barrel 1" .. "Barrel n".
fn barrels(n: u32) -> ObjectDetector {
    let mut d = ObjectDetector::new(Scale::new(1, 1).unwrap());
    add(&mut d, "Empty", 10, true);
    for i in 1..=n {
        add(&mut d, &format!("Barrel {}", i), 10, false);
    }
    d
}

#[test]
fn template_requires_usable_images() {
    let ok = ObjectTemplate::new("A", color(2, 2), gray(2, 2), 1, 2, 3, 4, 5, None, false);
    assert!(ok.is_ok());
    let empty = ObjectTemplate::new("A", color(0, 0), gray(0, 0), 1, 2, 3, 4, 5, None, false);
    assert_eq!(empty.err(), Some(TemplateError::ImageLoad));
    let mismatched = ObjectTemplate::new("A", color(2, 2), gray(3, 2), 1, 2, 3, 4, 5, None, false);
    assert_eq!(mismatched.err(), Some(TemplateError::ImageLoad));
    let short = Image { width: 2, height: 2, channels: 3, data: vec![0u8; 5] };
    assert!(ObjectTemplate::new("A", short, gray(2, 2), 1, 2, 3, 4, 5, None, false).is_err());
}

#[test]
fn add_template_failure_leaves_store_unchanged() {
    let mut d = barrels(2);
    d.update_active_range(&[1]);
    let r = d.add_template("Bad", color(0, 3), gray(0, 3), 1, 1, 0, 0, 0, None, false);
    assert_eq!(r, Err(TemplateError::ImageLoad));
    assert_eq!(d.templates.len(), 3);
    assert!(!d.full_range);
}

#[test]
fn backdrop_pixels_turn_black() {
    let mut img = Image { width: 3, height: 1, channels: 3, data: vec![154, 195, 156, 154, 195, 159, 150, 200, 158] };
    remove_backdrop(&mut img);
    assert_eq!(img.data, vec![0, 0, 0, 154, 195, 159, 0, 0, 0]);
    let t = ObjectTemplate::new("B", Image { width: 1, height: 1, channels: 3, data: vec![155, 191, 151] }, gray(1, 1), 1, 1, 0, 0, 0, None, false).unwrap();
    assert_eq!(t.template.data, vec![0, 0, 0]);
}

#[test]
fn lookup_by_name_finds_first() {
    let mut d = barrels(3);
    add(&mut d, "Barrel 2", 10, false);
    assert_eq!(d.find_template("Barrel 2"), Some(2));
    assert_eq!(d.find_template("Empty"), Some(0));
    assert_eq!(d.find_template("Cloud"), None);
}

#[test]
fn adding_resets_to_full_range() {
    let mut d = barrels(20);
    assert!(d.full_range);
    assert_eq!(d.active_range, (0, 20));
    d.update_active_range(&[5, 6]);
    assert!(!d.full_range);
    add(&mut d, "Barrel 21", 10, false);
    assert!(d.full_range);
    assert_eq!(d.active_range, (0, 21));
}

#[test]
fn first_levels_narrow_the_range() {
    let mut d = barrels(20);
    d.update_active_range(&[5, 6]);
    // levels 0..=14: "Barrel 1" (index 1) to "Barrel 14" (index 14)
    assert_eq!(d.active_range, (1, 14));
    assert!(!d.full_range);
    let active = d.get_active_templates();
    let expected: Vec<usize> = std::iter::once(0).chain(1..=14).collect();
    assert_eq!(active, expected);
}

#[test]
fn no_levels_reset_to_full_range() {
    let mut d = barrels(20);
    d.update_active_range(&[5, 6]);
    d.update_active_range(&[]);
    assert!(d.full_range);
    assert_eq!(d.active_range, (0, 20));
    assert_eq!(d.get_active_templates().len(), 21);
}

#[test]
fn narrowed_range_only_widens() {
    let mut d = barrels(30);
    d.update_active_range(&[10]);
    assert_eq!(d.active_range, (5, 18));
    d.update_active_range(&[12]);
    assert_eq!(d.active_range, (5, 18));
    d.update_active_range(&[1, 20]);
    assert_eq!(d.active_range, (0, 23));
    d.update_active_range(&[29]);
    assert_eq!(d.active_range, (0, 30));
}

#[test]
fn narrowing_without_matching_names_keeps_everything() {
    let mut d = barrels(3);
    d.update_active_range(&[100]);
    assert!(!d.full_range);
    assert_eq!(d.active_range, (0, 3));
}

#[test]
fn empty_store_searches_nothing() {
    let mut d = ObjectDetector::new(Scale::new(1, 2).unwrap());
    assert!(d.get_active_templates().is_empty());
    d.update_active_range(&[3]);
    assert_eq!(d.active_range, (0, 0));
    assert!(d.get_active_templates().is_empty());
}

#[test]
fn close_detections_keep_the_most_confident() {
    let d = barrels(3);
    // separation of every template is 10 pixels
    let out = d.filter_close_detections(vec![det("Barrel 1", 0, 0, 900_000), det("Barrel 2", 9, 0, 950_000)]);
    assert_eq!(names(&out), vec!["Barrel 2"]);
    let out = d.filter_close_detections(vec![det("Barrel 1", 0, 0, 900_000), det("Barrel 2", 11, 0, 950_000)]);
    assert_eq!(names(&out), vec!["Barrel 2", "Barrel 1"]);
    // exactly the separation distance apart: both kept
    let out = d.filter_close_detections(vec![det("Barrel 1", 0, 0, 900_000), det("Barrel 2", 6, 8, 950_000)]);
    assert_eq!(out.len(), 2);
}

#[test]
fn separation_is_that_of_the_kept_detection() {
    let mut d = ObjectDetector::new(Scale::new(1, 1).unwrap());
    add(&mut d, "Wide", 50, false);
    add(&mut d, "Narrow", 5, false);
    let out = d.filter_close_detections(vec![det("Narrow", 0, 0, 990_000), det("Wide", 20, 0, 900_000)]);
    assert_eq!(out.len(), 2);
    let out = d.filter_close_detections(vec![det("Wide", 0, 0, 990_000), det("Narrow", 20, 0, 900_000)]);
    assert_eq!(names(&out), vec!["Wide"]);
}

#[test]
fn unknown_templates_are_dropped() {
    let d = barrels(1);
    let out = d.filter_close_detections(vec![det("Ghost", 0, 0, 990_000), det("Barrel 1", 5, 5, 900_000)]);
    assert_eq!(names(&out), vec!["Barrel 1"]);
}

#[test]
fn equal_confidences_keep_input_order() {
    let d = barrels(3);
    let out = d.filter_close_detections(vec![
        det("Barrel 3", 100, 0, 900_000),
        det("Barrel 1", 0, 0, 900_000),
        det("Barrel 2", 200, 0, 950_000),
    ]);
    assert_eq!(names(&out), vec!["Barrel 2", "Barrel 3", "Barrel 1"]);
}

#[test]
fn detections_map_back_to_the_full_size_frame() {
    let d = {
        let mut d = ObjectDetector::new(Scale::new(1, 2).unwrap());
        add(&mut d, "Barrel 1", 10, false);
        d
    };
    let mut scores = vec![0i32; 20 * 10];
    scores[3 * 20 + 7] = SCORE_ONE;
    let sf = ScoreSurface::new(20, 10, scores).unwrap();
    let out = d.detections_from_surface(0, &sf, 2, 2);
    assert_eq!(out.len(), 1);
    assert_eq!(out[0].object_name, "Barrel 1");
    assert_eq!(out[0].location, Point { x: 14, y: 6 });
    assert_eq!(out[0].confidence, SCORE_ONE);
}

/// A surface for one template: `SCORE_ONE` at each of `at`, a weak response elsewhere.
fn response(w: usize, h: usize, at: &[(usize, usize)]) -> ScoreSurface {
    let mut scores = vec![100_000i32; w * h];
    for &(x, y) in at {
        scores[y * w + x] = SCORE_ONE;
        if x + 1 < w {
            scores[y * w + x + 1] = 850_000;
        }
    }
    ScoreSurface::new(w, h, scores).unwrap()
}

fn run_frame(d: &mut ObjectDetector, placements: &[(&str, Vec<(usize, usize)>)]) -> Vec<DetectionResult> {
    let mut raw = Vec::new();
    for i in d.get_active_templates() {
        let name = d.templates[i].name.clone();
        let at = placements.iter().find(|(n, _)| *n == name).map(|(_, v)| v.clone()).unwrap_or_default();
        let sf = response(40, 30, &at);
        raw.extend(d.detections_from_surface(i, &sf, 4, 4));
    }
    d.finish_frame(raw)
}

#[test]
fn end_to_end_frame() {
    let mut d = ObjectDetector::new(Scale::new(1, 1).unwrap());
    for i in 1..=5 {
        add(&mut d, &format!("Barrel {}", i), 10, false);
    }
    add(&mut d, "Empty", 10, true);
    let placements = vec![("Barrel 2", vec![(2, 2), (20, 2), (2, 20)]), ("Barrel 4", vec![(20, 20)])];
    let out = run_frame(&mut d, &placements);
    assert_eq!(out.len(), 4);
    let mut got: Vec<(String, i32, i32)> =
        out.iter().map(|r| (r.object_name.clone(), r.location.x, r.location.y)).collect();
    got.sort();
    assert_eq!(
        got,
        vec![
            ("Barrel 2".to_string(), 2, 2),
            ("Barrel 2".to_string(), 2, 20),
            ("Barrel 2".to_string(), 20, 2),
            ("Barrel 4".to_string(), 20, 20),
        ]
    );
    assert!(out.iter().all(|r| r.confidence >= 800_000));
    // levels 2 and 4 narrow to levels 0..=12: every barrel template
    assert!(!d.full_range);
    assert_eq!(d.active_range, (0, 4));
}

#[test]
fn repeated_frames_give_the_same_detections() {
    let placements = vec![("Barrel 1", vec![(5, 5), (30, 5)]), ("Barrel 2", vec![(5, 20)])];
    let mut a = barrels(3);
    let mut b = barrels(3);
    let first = run_frame(&mut a, &placements);
    let second = run_frame(&mut b, &placements);
    let key = |v: &Vec<DetectionResult>| -> Vec<(String, i32, i32, i32)> {
        v.iter().map(|r| (r.object_name.clone(), r.location.x, r.location.y, r.confidence)).collect()
    };
    assert_eq!(key(&first), key(&second));
    assert_eq!(a.active_range, b.active_range);
    assert_eq!(first.len(), 3);
}
