use quicksort_bench::QuickSort;
use quicksort_bench::QuicksortBenchmark;

#[test]
fn check_checksum() {
    let mut qs = QuickSort::new(7);
    let checksum = qs.benchmark();
    assert_eq!(checksum, 21880255009);
}

#[test]
fn full_range_run_golden() {
    let mut qs = QuickSort::new(7);
    let checksum = qs.run(1000, 100);
    assert_eq!(checksum, 107829970005);
}

#[test]
fn reduced_run_golden() {
    let mut qs = QuicksortBenchmark::new(7);
    let checksum = qs.run(1000, 100);
    assert_eq!(checksum, 49760);
}

#[test]
fn generator_first_draws() {
    let mut g = QuickSort::new(7);
    assert_eq!(g.random(), 1282168116);
    assert_eq!(g.random(), 642666333);
    assert_eq!(g.random(), 712265938);
}

#[test]
fn reduced_generator_matches_full_range_states() {
    let mut g = QuicksortBenchmark::new(7);
    assert_eq!(g.random(), 1282168116);
    assert_eq!(g.random(), 642666333);
}

#[test]
fn generator_sequences_reproducible() {
    let mut a = QuickSort::new(123456789);
    let mut b = QuickSort::new(123456789);
    for _ in 0..1000 {
        assert_eq!(a.random(), b.random());
    }
}

#[test]
fn generator_independent_of_sorting() {
    // Drawing k values gives the same sequence whether or not arrays are
    // filled and sorted in between from another generator.
    let mut plain = QuickSort::new(42);
    let mut interleaved = QuickSort::new(42);
    let mut other = QuickSort::new(7);
    let mut arr: Vec<u64> = vec![0; 50];
    for _ in 0..20 {
        other.randomize_array(&mut arr);
        other.quick_sort(&mut arr, 0, 49);
        assert_eq!(plain.random(), interleaved.random());
    }
}

#[test]
fn run_is_deterministic() {
    let mut a = QuicksortBenchmark::new(99);
    let mut b = QuicksortBenchmark::new(99);
    assert_eq!(a.run(250, 40), b.run(250, 40));
    let mut c = QuickSort::new(99);
    let mut d = QuickSort::new(99);
    assert_eq!(c.run(250, 40), d.run(250, 40));
}

#[test]
fn fresh_generator_reproduces_checksum() {
    let mut first = QuickSort::new(7);
    let first_result = first.benchmark();
    let mut again = QuickSort::new(7);
    assert_eq!(again.benchmark(), first_result);
}

#[test]
fn zero_iterations_give_zero_checksum() {
    let mut qs = QuickSort::new(7);
    assert_eq!(qs.run(1000, 0), 0);
    let mut qb = QuicksortBenchmark::new(7);
    assert_eq!(qb.run(1000, 0), 0);
}

#[test]
fn length_one_runs() {
    // With one element per round the sort is trivial and the checksum is the
    // plain sum of the draws: 1282168116 + 642666333 + 712265938, and the
    // same values reduced modulo 1000 for the bounded variant.
    let mut qs = QuickSort::new(7);
    assert_eq!(qs.run(1, 3), 2637100387);
    let mut qb = QuicksortBenchmark::new(7);
    assert_eq!(qb.run(1, 3), 116 + 333 + 938);
}
