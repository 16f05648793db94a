use methyl_windows::plan::plan_windows;
use methyl_windows::plan::Window;

fn win(chrom: &str, start: usize, end: usize) -> Window {
    Window { chrom: chrom.as_bytes().to_vec(), start, end }
}

#[test]
fn three_windows_tile_short_chromosome() {
    let content = b"chr1\t12000\n".to_vec();
    let plan = plan_windows(&content, 5000);
    assert_eq!(
        plan,
        vec![win("chr1", 1, 5000), win("chr1", 5001, 10000), win("chr1", 10001, 15000)]
    );
}

#[test]
fn exact_multiple_gets_one_extra_window() {
    let content = b"chr1\t5000\n".to_vec();
    let plan = plan_windows(&content, 5000);
    assert_eq!(plan, vec![win("chr1", 1, 5000), win("chr1", 5001, 10000)]);
}

#[test]
fn empty_input_yields_empty_plan() {
    let content = Vec::new();
    let plan = plan_windows(&content, 5000);
    assert!(plan.is_empty());
}

#[test]
fn malformed_lines_are_skipped_silently() {
    let content = b"oops\nchr1\tabc\n\t99\nchr2\t100\n\n".to_vec();
    let plan = plan_windows(&content, 50);
    assert_eq!(plan, vec![win("chr2", 1, 50), win("chr2", 51, 100), win("chr2", 101, 150)]);
}

#[test]
fn fasta_index_extra_columns_are_ignored() {
    let content = b"chr1\t100\t58\t60\t61\n".to_vec();
    let plan = plan_windows(&content, 100);
    assert_eq!(plan, vec![win("chr1", 1, 100), win("chr1", 101, 200)]);
}

#[test]
fn zero_length_still_gets_one_window() {
    let content = b"chrM\t0\n".to_vec();
    let plan = plan_windows(&content, 5000);
    assert_eq!(plan, vec![win("chrM", 1, 5000)]);
}

#[test]
fn window_size_one() {
    let content = b"c\t3\n".to_vec();
    let plan = plan_windows(&content, 1);
    assert_eq!(plan, vec![win("c", 1, 1), win("c", 2, 2), win("c", 3, 3), win("c", 4, 4)]);
}

#[test]
fn length_with_leading_plus_parses() {
    let content = b"chr1\t+100\n".to_vec();
    let plan = plan_windows(&content, 100);
    assert_eq!(plan, vec![win("chr1", 1, 100), win("chr1", 101, 200)]);
}

#[test]
fn surrounding_whitespace_is_trimmed() {
    let content = b"  chr1\t100 \r\n".to_vec();
    let plan = plan_windows(&content, 100);
    assert_eq!(plan, vec![win("chr1", 1, 100), win("chr1", 101, 200)]);
}

#[test]
fn missing_trailing_newline_is_fine() {
    let content = b"chr1\t100".to_vec();
    let plan = plan_windows(&content, 100);
    assert_eq!(plan, vec![win("chr1", 1, 100), win("chr1", 101, 200)]);
}

#[test]
fn chromosomes_keep_file_order_and_starts_ascend() {
    let content = b"chr2\t10000\nchr1\t4000\n".to_vec();
    let plan = plan_windows(&content, 5000);
    assert_eq!(
        plan,
        vec![
            win("chr2", 1, 5000),
            win("chr2", 5001, 10000),
            win("chr2", 10001, 15000),
            win("chr1", 1, 5000),
        ]
    );
    for pair in plan.windows(2) {
        if pair[0].chrom == pair[1].chrom {
            assert!(pair[0].start < pair[1].start);
            assert_eq!(pair[1].start, pair[0].end + 1);
        }
    }
}

#[test]
fn no_window_starts_at_zero() {
    let content = b"a\t1\nb\t123456\nc\t7\n".to_vec();
    let plan = plan_windows(&content, 7);
    assert!(!plan.is_empty());
    for w in &plan {
        assert!(w.start >= 1);
    }
}

#[test]
fn oversized_lengths_are_skipped_like_malformed_lines() {
    // does not fit a machine word at all
    let content = b"chr1\t99999999999999999999\nchr2\t10\n".to_vec();
    let plan = plan_windows(&content, 10);
    assert_eq!(plan, vec![win("chr2", 1, 10), win("chr2", 11, 20)]);
    // fits a machine word, but the final window's end would not
    let content = b"chr1\t18446744073709551615\nchr2\t10\n".to_vec();
    let plan = plan_windows(&content, 10);
    assert_eq!(plan, vec![win("chr2", 1, 10), win("chr2", 11, 20)]);
}

#[test]
fn planning_twice_gives_identical_plans() {
    let content = b"chr1\t12345\nchr2\t999\n".to_vec();
    let first = plan_windows(&content, 777);
    let second = plan_windows(&content, 777);
    assert_eq!(first, second);
}
