use svmkit::cross_val::{gather, kfold_indices};
use svmkit::data::{csv_records, line_spans, split_data, split_spans};
use svmkit::evaluation::tally;
use svmkit::hyperparameters::default_max_passes;
use svmkit::optimizer::{choose_partner, partner_from_draw, PassCounter};
use svmkit::plots::learning_curve_steps;
use svmkit::svm::kept_indices;

fn range(lo: usize, hi: usize) -> Vec<usize> {
    (lo..hi).collect()
}

#[test]
fn kfold_blocks_and_remainder() {
    let folds = kfold_indices(10, 3);
    assert_eq!(folds.len(), 3);
    assert_eq!(folds[0].1, vec![0, 1, 2]);
    assert_eq!(folds[0].0, range(3, 10));
    assert_eq!(folds[1].1, vec![3, 4, 5]);
    let mut train1 = range(0, 3);
    train1.extend(range(6, 10));
    assert_eq!(folds[1].0, train1);
    assert_eq!(folds[2].1, range(6, 10));
    assert_eq!(folds[2].0, range(0, 6));
}

#[test]
fn kfold_more_folds_than_samples() {
    let folds = kfold_indices(2, 3);
    assert_eq!(folds.len(), 3);
    assert!(folds[0].1.is_empty());
    assert_eq!(folds[0].0, vec![0, 1]);
    assert!(folds[1].1.is_empty());
    assert_eq!(folds[2].1, vec![0, 1]);
    assert!(folds[2].0.is_empty());
}

#[test]
fn kfold_single_fold_tests_everything() {
    let folds = kfold_indices(4, 1);
    assert_eq!(folds.len(), 1);
    assert_eq!(folds[0].1, vec![0, 1, 2, 3]);
    assert!(folds[0].0.is_empty());
}

#[test]
fn kfold_every_index_tested_once_and_partitioned() {
    let n = 23;
    let k = 5;
    let folds = kfold_indices(n, k);
    let mut tested = vec![0usize; n];
    for (train, test) in &folds {
        for &x in test {
            tested[x] += 1;
        }
        for x in 0..n {
            assert!(train.contains(&x) != test.contains(&x));
        }
        assert_eq!(train.len() + test.len(), n);
    }
    assert!(tested.iter().all(|&c| c == 1));
}

#[test]
fn gather_copies_in_index_order() {
    let data = vec![vec![1.0_f64, 2.0], vec![3.0, 4.0], vec![5.0, 6.0]];
    let out = gather(&data, &[2, 0, 2]);
    assert_eq!(out, vec![vec![5.0, 6.0], vec![1.0, 2.0], vec![5.0, 6.0]]);
    let labels = [1.0_f64, -1.0, 1.0];
    assert_eq!(gather(&labels, &[1]), vec![-1.0]);
    assert!(gather(&labels, &[]).is_empty());
}

#[test]
fn split_data_eighty_twenty() {
    let points: Vec<Vec<f64>> = (0..10).map(|i| vec![i as f64, -(i as f64)]).collect();
    let labels: Vec<f64> = (0..10).map(|i| if i % 2 == 0 { 1.0 } else { -1.0 }).collect();
    let ((train_x, train_y), (test_x, test_y)) = split_data(80, 20, points.clone(), labels.clone());
    assert_eq!(train_x, points[..8].to_vec());
    assert_eq!(train_y, labels[..8].to_vec());
    assert_eq!(test_x, points[8..].to_vec());
    assert_eq!(test_y, labels[8..].to_vec());
}

#[test]
fn split_data_leaves_out_the_rest() {
    let points: Vec<u32> = (0..10).collect();
    let labels: Vec<i8> = (0..10).map(|i| i as i8).collect();
    let ((train_x, train_y), (test_x, test_y)) = split_data(50, 30, points, labels);
    assert_eq!(train_x, vec![0, 1, 2, 3, 4]);
    assert_eq!(train_y, vec![0, 1, 2, 3, 4]);
    assert_eq!(test_x, vec![5, 6, 7]);
    assert_eq!(test_y, vec![5, 6, 7]);
}

#[test]
fn split_data_rounds_down() {
    let points: Vec<u32> = (0..7).collect();
    let labels = points.clone();
    let ((train_x, _), (test_x, _)) = split_data(80, 20, points, labels);
    // 7 * 80 / 100 = 5, 7 * 20 / 100 = 1
    assert_eq!(train_x, vec![0, 1, 2, 3, 4]);
    assert_eq!(test_x, vec![5]);
}

fn field_texts<'a>(text: &'a str, record: &[(usize, usize)]) -> Vec<&'a str> {
    record.iter().map(|&(a, b)| &text[a..b]).collect()
}

#[test]
fn load_csv_layout_of_two_rows() {
    let text = "1.0,2.0,1.0\n-1.0,-2.0,-1.0\n";
    let records = csv_records(text.as_bytes(), false);
    assert_eq!(records.len(), 2);
    assert_eq!(field_texts(text, &records[0]), vec!["1.0", "2.0", "1.0"]);
    assert_eq!(field_texts(text, &records[1]), vec!["-1.0", "-2.0", "-1.0"]);
}

#[test]
fn csv_header_is_skipped() {
    let text = "x,y,label\n1,2,0\n3,4,1";
    let records = csv_records(text.as_bytes(), true);
    assert_eq!(records.len(), 2);
    assert_eq!(field_texts(text, &records[0]), vec!["1", "2", "0"]);
    assert_eq!(field_texts(text, &records[1]), vec!["3", "4", "1"]);
    let all = csv_records(text.as_bytes(), false);
    assert_eq!(all.len(), 3);
    assert_eq!(field_texts(text, &all[0]), vec!["x", "y", "label"]);
}

#[test]
fn csv_short_lines_are_skipped() {
    let text = "1,2\n\nlonely\n3,\n";
    let records = csv_records(text.as_bytes(), false);
    assert_eq!(records.len(), 2);
    assert_eq!(field_texts(text, &records[0]), vec!["1", "2"]);
    assert_eq!(field_texts(text, &records[1]), vec!["3", ""]);
}

#[test]
fn csv_header_counts_even_when_short() {
    // the first line is the header even when it would not be a record
    let text = "h\n5,6\n";
    let records = csv_records(text.as_bytes(), true);
    assert_eq!(records.len(), 1);
    assert_eq!(field_texts(text, &records[0]), vec!["5", "6"]);
}

#[test]
fn csv_carriage_returns() {
    let text = "1,2\r\n3,4\r";
    let records = csv_records(text.as_bytes(), false);
    assert_eq!(records.len(), 2);
    assert_eq!(field_texts(text, &records[0]), vec!["1", "2"]);
    // a final line without a newline keeps its carriage return
    assert_eq!(field_texts(text, &records[1]), vec!["3", "4\r"]);
}

#[test]
fn csv_empty_text() {
    assert!(csv_records(b"", false).is_empty());
    assert!(csv_records(b"", true).is_empty());
    assert!(line_spans(b"").is_empty());
}

#[test]
fn lines_match_bufread_lines() {
    let text = "a\r\n\nb\r\n\r\nc\r";
    let spans = line_spans(text.as_bytes());
    let ours: Vec<&str> = spans.iter().map(|&(a, b)| &text[a..b]).collect();
    let std_lines: Vec<String> = std::io::BufRead::lines(text.as_bytes()).map(|l| l.unwrap()).collect();
    assert_eq!(ours, std_lines);
    assert_eq!(ours, vec!["a", "", "b", "", "c\r"]);
}

#[test]
fn split_spans_counts_empty_pieces() {
    let text = b",a,,b,";
    let spans = split_spans(text, b',', 0, text.len());
    assert_eq!(spans, vec![(0, 0), (1, 2), (3, 3), (4, 5), (6, 6)]);
    let inner = split_spans(text, b',', 1, 2);
    assert_eq!(inner, vec![(1, 2)]);
}

#[test]
fn tally_counts_the_four_cells() {
    let classes = [1, 1, -1, -1, 1, 0, -1];
    let labels = [1, -1, 1, -1, 1, 1, 0, 1];
    let c = tally(&classes, &labels);
    assert_eq!(c.true_pos, 2);
    assert_eq!(c.false_pos, 1);
    assert_eq!(c.false_neg, 1);
    assert_eq!(c.true_neg, 1);
    assert_eq!(c.true_pos + c.true_neg + c.false_pos + c.false_neg, 5);
}

#[test]
fn tally_of_nothing() {
    let c = tally(&[], &[1, -1]);
    assert_eq!((c.true_pos, c.true_neg, c.false_pos, c.false_neg), (0, 0, 0, 0));
}

#[test]
fn partner_from_draw_skips_the_first_index() {
    assert_eq!(partner_from_draw(3, 0), 0);
    assert_eq!(partner_from_draw(3, 2), 2);
    assert_eq!(partner_from_draw(3, 3), 4);
    assert_eq!(partner_from_draw(0, 0), 1);
}

#[test]
fn choose_partner_keeps_a_distinct_best() {
    assert_eq!(choose_partner(0, 2, 3), 2);
    assert_eq!(choose_partner(2, 0, 3), 0);
}

#[test]
fn choose_partner_redraws_when_best_is_the_first() {
    for _ in 0..200 {
        let j = choose_partner(1, 1, 3);
        assert!(j < 3 && j != 1);
        assert_eq!(choose_partner(0, 0, 2), 1);
    }
}

#[test]
fn pass_counter_resets_on_change() {
    let mut pc = PassCounter::new(3);
    assert!(!pc.is_done());
    pc.record_sweep(0);
    pc.record_sweep(0);
    assert_eq!(pc.passes, 2);
    pc.record_sweep(4);
    assert_eq!(pc.passes, 0);
    assert!(!pc.is_done());
    pc.record_sweep(0);
    pc.record_sweep(0);
    pc.record_sweep(0);
    assert!(pc.is_done());
    assert_eq!(pc.max_passes, 3);
}

#[test]
fn pass_counter_zero_max_is_done_at_once() {
    assert!(PassCounter::new(0).is_done());
}

#[test]
fn kept_indices_in_order() {
    assert_eq!(kept_indices(&[false, true, true, false, true]), vec![1, 2, 4]);
    assert!(kept_indices(&[false, false]).is_empty());
    assert!(kept_indices(&[]).is_empty());
}

#[test]
fn default_max_passes_values() {
    assert_eq!(default_max_passes(0), 100);
    assert_eq!(default_max_passes(4), 100);
    assert_eq!(default_max_passes(10_200), 100);
    assert_eq!(default_max_passes(10_201), 101);
    assert_eq!(default_max_passes(1_000_000), 1000);
    assert_eq!(default_max_passes(1_000_001), 1000);
}

#[test]
fn learning_curve_steps_values() {
    assert_eq!(learning_curve_steps(100), vec![10, 20, 30, 40, 50, 60, 70, 80, 90, 100]);
    assert_eq!(learning_curve_steps(5), vec![2, 2, 2, 2, 2, 3, 3, 4, 4, 5]);
    assert_eq!(learning_curve_steps(0), vec![2; 10]);
}

#[test]
fn csv_header_line_is_dropped_whatever_it_holds() {
    let rest = "1,2,0\n,3,\r\nsolo\n4,5";
    for header in ["", "x,y,label", "1,2,3", "\r", "a"] {
        let with_header = format!("{}\n{}", header, rest);
        let a = csv_records(with_header.as_bytes(), true);
        let b = csv_records(rest.as_bytes(), false);
        assert_eq!(a.len(), b.len());
        for (ra, rb) in a.iter().zip(b.iter()) {
            assert_eq!(field_texts(&with_header, ra), field_texts(rest, rb));
        }
    }
    assert_eq!(csv_records(rest.as_bytes(), false).len(), 3);
}
