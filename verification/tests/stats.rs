use id3::error::Id3Error;
use id3::stats::{count_each, Probability};
use id3::table::Table;
use id3::value::TableType;

fn text(label: &str) -> TableType {
    TableType::from(label)
}

fn texts(labels: &[&str]) -> Vec<TableType> {
    labels.iter().map(|l| text(l)).collect()
}

fn names(labels: &[&str]) -> Vec<String> {
    labels.iter().map(|l| l.to_string()).collect()
}

fn terrain() -> Table {
    Table::new(
        names(&["id", "stream", "slope", "elevation", "vegetation"]),
        vec![
            (1..=7).map(TableType::Int).collect(),
            [false, true, true, false, false, true, true].iter().map(|b| TableType::Bool(*b)).collect(),
            texts(&["steep", "moderate", "steep", "steep", "flat", "steep", "steep"]),
            texts(&["high", "low", "medium", "medium", "high", "highest", "high"]),
            texts(&["chapparal", "riparian", "riparian", "chapparal", "conifer", "conifer", "chapparal"]),
        ],
    )
    .unwrap()
}

fn entropy(counts: &[usize]) -> f64 {
    let total: usize = counts.iter().sum();
    let mut bits = 0.0;
    for &count in counts {
        if count > 0 {
            let p = count as f64 / total as f64;
            bits += p * -p.log2();
        }
    }
    bits
}

fn information_gain(table: &Vec<Vec<usize>>) -> f64 {
    let total: usize = table.iter().map(|row| row.iter().sum::<usize>()).sum();
    if total == 0 {
        return 0.0;
    }
    let width = table.iter().map(|row| row.len()).max().unwrap_or(0);
    let mut labels = vec![0usize; width];
    for row in table {
        for (j, count) in row.iter().enumerate() {
            labels[j] += count;
        }
    }
    let mut gain = entropy(&labels);
    for row in table {
        let size: usize = row.iter().sum();
        if size > 0 {
            gain -= size as f64 / total as f64 * entropy(row);
        }
    }
    gain
}

#[test]
fn probability_is_a_count_over_the_row_count() {
    let t = terrain();
    assert_eq!(
        t.calculate_probability("elevation", &text("high")),
        Ok(Probability { count: 3, total: 7 })
    );
    assert_eq!(
        t.calculate_probability("stream", &TableType::Bool(true)),
        Ok(Probability { count: 4, total: 7 })
    );
    assert_eq!(
        t.calculate_probability("slope", &text("flat")),
        Ok(Probability { count: 1, total: 7 })
    );
    assert_eq!(
        t.calculate_probability("vegetation", &text("riparian")),
        Ok(Probability { count: 2, total: 7 })
    );
}

#[test]
fn probability_of_an_absent_value_is_zero() {
    let t = terrain();
    assert_eq!(
        t.calculate_probability("elevation", &text("sea")),
        Ok(Probability { count: 0, total: 7 })
    );
}

#[test]
fn probability_in_an_unknown_column_fails() {
    assert_eq!(
        terrain().calculate_probability("aspect", &text("north")),
        Err(Id3Error::InvalidColumn)
    );
}

#[test]
fn probability_in_an_empty_table_is_none_of_none() {
    let t = Table::new(names(&["a"]), vec![vec![]]).unwrap();
    assert_eq!(t.calculate_probability("a", &TableType::Int(1)), Ok(Probability { count: 0, total: 0 }));
}

#[test]
fn probabilities_of_the_unique_values_sum_to_one() {
    let t = terrain();
    for column in ["id", "stream", "slope", "elevation", "vegetation"] {
        let mut count = 0;
        for value in t.get_unique(column).unwrap() {
            let p = t.calculate_probability(column, &value).unwrap();
            assert_eq!(p.total, 7);
            count += p.count;
        }
        assert_eq!(count, 7);
        assert_eq!(t.value_counts(column).unwrap().iter().sum::<usize>(), 7);
    }
}

#[test]
fn value_counts_follow_the_unique_values() {
    let t = terrain();
    assert_eq!(t.value_counts("stream").unwrap(), vec![3, 4]);
    assert_eq!(t.value_counts("slope").unwrap(), vec![1, 1, 5]);
    assert_eq!(t.value_counts("elevation").unwrap(), vec![3, 1, 1, 2]);
    assert_eq!(t.value_counts("vegetation").unwrap(), vec![3, 2, 2]);
    assert_eq!(t.value_counts("id").unwrap(), vec![1; 7]);
    assert_eq!(t.value_counts("aspect"), Err(Id3Error::InvalidColumn));
}

#[test]
fn value_counts_of_an_empty_table_are_none() {
    let t = Table::new(names(&["a"]), vec![vec![]]).unwrap();
    assert_eq!(t.value_counts("a").unwrap(), Vec::<usize>::new());
}

#[test]
fn counts_are_taken_for_the_given_values() {
    let column = texts(&["a", "b", "a", "c", "a"]);
    assert_eq!(count_each(&column, &texts(&["c", "a", "z"])), vec![1, 3, 0]);
    assert_eq!(count_each(&column, &Vec::new()), Vec::<usize>::new());
}

#[test]
fn entropy_of_vegetation_is_about_one_and_a_half_bits() {
    let counts = terrain().value_counts("vegetation").unwrap();
    assert!((entropy(&counts) - 1.5567).abs() < 0.0001);
}

#[test]
fn entropy_is_zero_for_a_single_value() {
    let t = Table::new(names(&["a", "b"]), vec![texts(&["x", "x", "x"]), texts(&["p", "q", "p"])]).unwrap();
    let a = t.value_counts("a").unwrap();
    let b = t.value_counts("b").unwrap();
    assert_eq!(a, vec![3]);
    assert_eq!(entropy(&a), 0.0);
    assert!(entropy(&b) > 0.0);
    let none = Table::new(names(&["a"]), vec![vec![]]).unwrap();
    assert_eq!(entropy(&none.value_counts("a").unwrap()), 0.0);
}

#[test]
fn entropy_is_greatest_for_equally_frequent_values() {
    let t = terrain();
    let ids = t.value_counts("id").unwrap();
    assert!((entropy(&ids) - 7f64.log2()).abs() < 1e-12);
    let t = Table::new(names(&["a"]), vec![texts(&["x", "y", "x", "y"])]).unwrap();
    assert_eq!(entropy(&t.value_counts("a").unwrap()), 1.0);
}

#[test]
fn the_target_is_counted_within_each_value_of_a_feature() {
    let t = terrain();
    assert_eq!(t.contingency("stream", "vegetation").unwrap(), vec![vec![2, 1, 0], vec![1, 1, 2]]);
    assert_eq!(
        t.contingency("slope", "vegetation").unwrap(),
        vec![vec![0, 1, 0], vec![0, 0, 1], vec![3, 1, 1]]
    );
    assert_eq!(
        t.contingency("elevation", "vegetation").unwrap(),
        vec![vec![2, 1, 0], vec![0, 1, 0], vec![0, 0, 1], vec![1, 0, 1]]
    );
    assert_eq!(t.contingency("vegetation", "stream").unwrap(), vec![vec![2, 1], vec![1, 1], vec![0, 2]]);
}

#[test]
fn counting_within_an_unknown_column_fails() {
    let t = terrain();
    assert_eq!(t.contingency("aspect", "vegetation"), Err(Id3Error::InvalidColumn));
    assert_eq!(t.contingency("slope", "cover"), Err(Id3Error::InvalidColumn));
    assert_eq!(t.contingency("aspect", "cover"), Err(Id3Error::InvalidColumn));
}

#[test]
fn counting_within_an_empty_table_gives_no_rows() {
    let t = Table::new(names(&["a", "b"]), vec![vec![], vec![]]).unwrap();
    assert_eq!(t.contingency("a", "b").unwrap(), Vec::<Vec<usize>>::new());
}

#[test]
fn joint_counts_of_two_columns() {
    let t = Table::new(
        names(&["feature", "target"]),
        vec![texts(&["u", "v", "u", "u"]), texts(&["n", "y", "y", "n"])],
    )
    .unwrap();
    assert_eq!(t.contingency("feature", "target").unwrap(), vec![vec![2, 1], vec![0, 1]]);
    assert_eq!(t.contingency("target", "feature").unwrap(), vec![vec![2, 0], vec![1, 1]]);
    assert_eq!(t.contingency("target", "target").unwrap(), vec![vec![2, 0], vec![0, 2]]);
}

#[test]
fn information_gain_of_the_features() {
    let t = terrain();
    let stream = information_gain(&t.contingency("stream", "vegetation").unwrap());
    let slope = information_gain(&t.contingency("slope", "vegetation").unwrap());
    let elevation = information_gain(&t.contingency("elevation", "vegetation").unwrap());
    assert!((stream - 0.3060).abs() < 0.0001);
    assert!((slope - 0.5774).abs() < 0.0001);
    assert!((elevation - 0.8774).abs() < 0.0001);
}

#[test]
fn information_gain_is_not_negative() {
    let t = terrain();
    for feature in ["id", "stream", "slope", "elevation", "vegetation"] {
        for target in ["id", "stream", "slope", "elevation", "vegetation"] {
            let gain = information_gain(&t.contingency(feature, target).unwrap());
            assert!(gain > -1e-12);
        }
    }
}
