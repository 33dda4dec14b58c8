use ray_tracer::scheduler::band_rows;

#[test]
fn bands_split_the_rows_evenly_when_the_count_divides() {
    assert_eq!(band_rows(100, 4, 0), (0, 25));
    assert_eq!(band_rows(100, 4, 1), (25, 50));
    assert_eq!(band_rows(100, 4, 2), (50, 75));
    assert_eq!(band_rows(100, 4, 3), (75, 100));
}

#[test]
fn a_single_worker_renders_every_row() {
    assert_eq!(band_rows(11, 1, 0), (0, 11));
}

#[test]
fn remainder_rows_fall_outside_every_band() {
    // 3 workers on 10 rows: each band holds 3 rows and row 9 is left over.
    assert_eq!(band_rows(10, 3, 0), (0, 3));
    assert_eq!(band_rows(10, 3, 1), (3, 6));
    assert_eq!(band_rows(10, 3, 2), (6, 9));
}

#[test]
fn more_workers_than_rows_leave_every_band_empty() {
    for i in 0..5 {
        assert_eq!(band_rows(3, 5, i), (0, 0));
    }
}
