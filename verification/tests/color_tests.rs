use drawing_bot::color::{color_distance, find_nearest_color, nearest_slot, Color};

#[test]
fn distance_is_squared_euclidean() {
    let a = Color::new(10, 20, 30);
    let b = Color::new(13, 16, 30);
    assert_eq!(color_distance(&a, &b), 25);
    assert_eq!(color_distance(&Color::new(0, 0, 0), &Color::new(255, 255, 255)), 195075);
}

#[test]
fn nearest_prefers_first_on_tie() {
    let palette = vec![Color::new(0, 0, 10), Color::new(0, 0, 30), Color::new(0, 0, 10)];
    assert_eq!(nearest_slot(&Color::new(0, 0, 20), &palette), 0);
    assert_eq!(find_nearest_color(&Color::new(0, 0, 29), &palette), Color::new(0, 0, 30));
    assert_eq!(nearest_slot(&Color::new(0, 0, 10), &palette), 0);
}
