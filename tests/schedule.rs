use pathtracer::schedule::{get_segment, render_plan, thread_seed, Band};

#[test]
fn segment_even_split() {
    assert_eq!(get_segment(4, 0, 12), (0, 3));
    assert_eq!(get_segment(4, 1, 12), (3, 6));
    assert_eq!(get_segment(4, 3, 12), (9, 12));
}

#[test]
fn segment_last_band_takes_remainder() {
    assert_eq!(get_segment(4, 2, 10), (4, 6));
    assert_eq!(get_segment(4, 3, 10), (6, 10));
}

#[test]
fn segment_single_thread_covers_all_rows() {
    assert_eq!(get_segment(1, 0, 7), (0, 7));
}

#[test]
fn segment_more_threads_than_rows() {
    assert_eq!(get_segment(3, 0, 2), (0, 0));
    assert_eq!(get_segment(3, 1, 2), (0, 0));
    assert_eq!(get_segment(3, 2, 2), (0, 2));
}

#[test]
fn seeds_grow_with_index() {
    assert_eq!(thread_seed(0), 0);
    assert_eq!(thread_seed(3), 3702);
}

#[test]
fn plan_starts_highest_band_first() {
    let plan = render_plan(3, 10);
    assert_eq!(
        plan,
        vec![
            Band { thread_index: 2, seed: 2468, lower: 6, upper: 10 },
            Band { thread_index: 1, seed: 1234, lower: 3, upper: 6 },
            Band { thread_index: 0, seed: 0, lower: 0, upper: 3 },
        ]
    );
}

#[test]
fn plan_rows_run_top_to_bottom_once_each() {
    let ny = 2160;
    let plan = render_plan(24, ny);
    let mut rows: Vec<usize> = Vec::new();
    for band in plan.iter() {
        for y in (band.lower..band.upper).rev() {
            rows.push(y);
        }
    }
    let expected: Vec<usize> = (0..ny).rev().collect();
    assert_eq!(rows, expected);
}

#[test]
fn plan_is_the_same_on_every_call() {
    assert_eq!(render_plan(7, 101), render_plan(7, 101));
}
