use scrap2_bot::geometry::Scale;
use scrap2_bot::peaks::{find_peaks, Peak, ScoreSurface, SCORE_ONE};

fn surface(width: usize, height: usize, cells: &[(usize, usize, i32)]) -> ScoreSurface {
    let mut scores = vec![0i32; width * height];
    for &(x, y, s) in cells {
        scores[y * width + x] = s;
    }
    ScoreSurface::new(width, height, scores).unwrap()
}

#[test]
fn surface_length_must_match() {
    assert!(ScoreSurface::new(3, 2, vec![0; 6]).is_some());
    assert!(ScoreSurface::new(3, 2, vec![0; 5]).is_none());
    assert!(ScoreSurface::new(0, 0, vec![]).is_some());
    assert!(ScoreSurface::new(4, 0, vec![1]).is_none());
}

#[test]
fn exact_copy_is_found_with_full_confidence() {
    let sf = surface(10, 8, &[(3, 2, SCORE_ONE), (4, 2, 700_000), (8, 7, 100_000)]);
    let peaks = find_peaks(&sf, 800_000, 3, 3);
    assert_eq!(peaks, vec![Peak { x: 3, y: 2, score: SCORE_ONE }]);
}

#[test]
fn extraction_stops_below_threshold() {
    let sf = surface(10, 8, &[(1, 1, 950_000), (7, 6, 850_000), (5, 5, 800_000)]);
    let peaks = find_peaks(&sf, 800_000, 2, 2);
    assert_eq!(
        peaks,
        vec![Peak { x: 1, y: 1, score: 950_000 }, Peak { x: 7, y: 6, score: 850_000 }]
    );
    // a score equal to the threshold is not a match
    assert!(find_peaks(&sf, 950_000, 2, 2).is_empty());
}

#[test]
fn footprint_suppresses_neighbours() {
    // (4,4) is inside the 3x3 footprint of (5,5); (7,5) is outside it
    let sf = surface(10, 10, &[(5, 5, 990_000), (4, 4, 980_000), (7, 5, 970_000)]);
    let peaks = find_peaks(&sf, 500_000, 3, 3);
    assert_eq!(
        peaks,
        vec![Peak { x: 5, y: 5, score: 990_000 }, Peak { x: 7, y: 5, score: 970_000 }]
    );
}

#[test]
fn equal_scores_come_in_row_major_order() {
    let sf = surface(6, 6, &[(4, 1, 900_000), (1, 4, 900_000), (0, 1, 900_000)]);
    let peaks = find_peaks(&sf, 500_000, 1, 1);
    let cells: Vec<(usize, usize)> = peaks.iter().map(|p| (p.x, p.y)).collect();
    assert_eq!(cells, vec![(0, 1), (4, 1), (1, 4)]);
}

#[test]
fn empty_footprint_finds_nothing() {
    let sf = surface(4, 4, &[(1, 1, SCORE_ONE)]);
    assert!(find_peaks(&sf, 0, 0, 3).is_empty());
    assert!(find_peaks(&sf, 0, 3, 0).is_empty());
}

#[test]
fn scale_maps_back_with_truncation() {
    let s = Scale::new(38, 100).unwrap();
    assert_eq!(s.unscale(38), 100);
    assert_eq!(s.unscale(10), 26);
    assert_eq!(s.unscale(0), 0);
    let half = Scale::new(1, 2).unwrap();
    assert_eq!(half.unscale(7), 14);
    let one = Scale::new(3, 3).unwrap();
    assert_eq!(one.unscale(123), 123);
    assert!(Scale::new(0, 5).is_none());
    assert!(s.fits(1000));
    assert!(!s.fits(usize::MAX));
}
