use alyze::features::field_match::{find_last_start_point, find_open_segment, StartPointState};

fn point(open: bool, explored: i32) -> Option<StartPointState> {
    Some(StartPointState { open, explored })
}

#[test]
fn the_first_resumable_start_point_is_taken() {
    let points = vec![point(false, 0), None, point(true, 3), point(true, 0)];
    // Explored before: an alternative segmentation is counted.
    assert_eq!(find_open_segment(&points, 0, 5, 1000), (Some(2), 6));
    // With the budget of alternatives spent, only unexplored points count.
    assert_eq!(find_open_segment(&points, 0, 1000, 1000), (Some(3), 1000));
    assert_eq!(find_open_segment(&points, 4, 0, 1000), (None, 0));
    assert_eq!(find_open_segment(&points, 9, 0, 1000), (None, 0));
}

#[test]
fn the_last_start_point_is_found() {
    let points = vec![point(false, 0), None, point(true, 3), None];
    assert_eq!(find_last_start_point(&points), Some(2));
    assert_eq!(find_last_start_point(&vec![None, None]), None);
}
