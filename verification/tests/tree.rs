use id3::error::Id3Error;
use id3::partition::first_maximum;
use id3::table::Table;
use id3::tree::{most_common, DecisionTree};
use id3::value::TableType;

fn text(label: &str) -> TableType {
    TableType::from(label)
}

fn texts(labels: &[&str]) -> Vec<TableType> {
    labels.iter().map(|l| text(l)).collect()
}

fn names(labels: &[&str]) -> Vec<String> {
    labels.iter().map(|l| l.to_string()).collect()
}

fn leaf(label: &str) -> DecisionTree {
    DecisionTree::Leaf(text(label))
}

fn terrain() -> Table {
    Table::new(
        names(&["id", "stream", "slope", "elevation", "vegetation"]),
        vec![
            (1..=7).map(TableType::Int).collect(),
            [false, true, true, false, false, true, true].iter().map(|b| TableType::Bool(*b)).collect(),
            texts(&["steep", "moderate", "steep", "steep", "flat", "steep", "steep"]),
            texts(&["high", "low", "medium", "medium", "high", "highest", "high"]),
            texts(&["chapparal", "riparian", "riparian", "chapparal", "conifer", "conifer", "chapparal"]),
        ],
    )
    .unwrap()
}

fn entropy(counts: &[usize]) -> f64 {
    let total: usize = counts.iter().sum();
    let mut bits = 0.0;
    for &count in counts {
        if count > 0 {
            let p = count as f64 / total as f64;
            bits += p * -p.log2();
        }
    }
    bits
}

fn information_gain(table: &Vec<Vec<usize>>) -> f64 {
    let total: usize = table.iter().map(|row| row.iter().sum::<usize>()).sum();
    if total == 0 {
        return 0.0;
    }
    let width = table.iter().map(|row| row.len()).max().unwrap_or(0);
    let mut labels = vec![0usize; width];
    for row in table {
        for (j, count) in row.iter().enumerate() {
            labels[j] += count;
        }
    }
    let mut gain = entropy(&labels);
    for row in table {
        let size: usize = row.iter().sum();
        if size > 0 {
            gain -= size as f64 / total as f64 * entropy(row);
        }
    }
    gain
}

fn by_gain(table: &Vec<Vec<usize>>) -> i64 {
    let bits = (information_gain(table) + 0.0).to_bits() as i64;
    bits ^ (((bits >> 63) as u64) >> 1) as i64
}

fn flat(_table: &Vec<Vec<usize>>) -> i64 {
    0
}

fn by_height(table: &Vec<Vec<usize>>) -> i64 {
    table.len() as i64
}

fn leaves(tree: &DecisionTree, into: &mut Vec<TableType>) {
    match tree {
        DecisionTree::Leaf(v) => into.push(v.clone()),
        DecisionTree::Node { children, .. } => {
            for child in children {
                leaves(child, into);
            }
        }
    }
}

#[test]
fn the_first_of_the_greatest_scores_wins() {
    assert_eq!(first_maximum(&vec![1, 5, 3, 5, 2]), Some(1));
    assert_eq!(first_maximum(&vec![0, 0, 0]), Some(0));
    assert_eq!(first_maximum(&vec![-4, -2, -9]), Some(1));
    assert_eq!(first_maximum(&vec![i64::MIN, i64::MAX, i64::MAX]), Some(1));
    assert_eq!(first_maximum(&vec![7]), Some(0));
    assert_eq!(first_maximum(&Vec::new()), None);
}

#[test]
fn the_best_feature_has_the_greatest_gain() {
    let t = terrain();
    let all = names(&["stream", "slope", "elevation"]);
    assert_eq!(t.select_best_feature(&all, "vegetation", &by_gain), Ok("elevation".to_string()));
    let two = names(&["stream", "slope"]);
    assert_eq!(t.select_best_feature(&two, "vegetation", &by_gain), Ok("slope".to_string()));
    let one = names(&["stream"]);
    assert_eq!(t.select_best_feature(&one, "vegetation", &by_gain), Ok("stream".to_string()));
}

#[test]
fn among_equal_scores_the_first_candidate_wins() {
    let t = terrain();
    let forward = names(&["stream", "slope", "elevation"]);
    let backward = names(&["elevation", "slope", "stream"]);
    assert_eq!(t.select_best_feature(&forward, "vegetation", &flat), Ok("stream".to_string()));
    assert_eq!(t.select_best_feature(&backward, "vegetation", &flat), Ok("elevation".to_string()));
}

#[test]
fn the_score_is_taken_from_the_counts_of_each_candidate() {
    let t = terrain();
    let all = names(&["stream", "slope", "elevation"]);
    assert_eq!(t.select_best_feature(&all, "vegetation", &by_height), Ok("elevation".to_string()));
    let two = names(&["stream", "slope"]);
    assert_eq!(t.select_best_feature(&two, "vegetation", &by_height), Ok("slope".to_string()));
}

#[test]
fn no_feature_is_best_of_none() {
    let t = terrain();
    assert_eq!(
        t.select_best_feature(&Vec::new(), "vegetation", &by_gain),
        Err(Id3Error::EmptyCandidateSet)
    );
}

#[test]
fn the_best_feature_of_unknown_columns_fails() {
    let t = terrain();
    let all = names(&["stream", "slope"]);
    assert_eq!(t.select_best_feature(&all, "cover", &by_gain), Err(Id3Error::InvalidColumn));
    assert_eq!(t.select_best_feature(&Vec::new(), "cover", &by_gain), Err(Id3Error::InvalidColumn));
    let wrong = names(&["stream", "aspect"]);
    assert_eq!(t.select_best_feature(&wrong, "vegetation", &by_gain), Err(Id3Error::InvalidColumn));
}

#[test]
fn a_table_is_cut_into_one_part_per_value() {
    let t = terrain();
    let parts = t.partition_table("elevation").unwrap();
    let values: Vec<TableType> = parts.iter().map(|p| p.0.clone()).collect();
    assert_eq!(values, texts(&["high", "highest", "low", "medium"]));
    let ids: Vec<Vec<TableType>> = parts.iter().map(|p| p.1.get_column("id").unwrap().clone()).collect();
    assert_eq!(
        ids,
        vec![
            vec![TableType::Int(1), TableType::Int(5), TableType::Int(7)],
            vec![TableType::Int(6)],
            vec![TableType::Int(2)],
            vec![TableType::Int(3), TableType::Int(4)],
        ]
    );
    for (value, part) in &parts {
        assert_eq!(part.column_count(), 5);
        assert_eq!(part.get_unique("elevation").unwrap(), vec![value.clone()]);
    }
    assert_eq!(
        parts[0].1.get_column("vegetation").unwrap(),
        &texts(&["chapparal", "conifer", "chapparal"])
    );
}

#[test]
fn the_parts_hold_every_row_once() {
    let t = terrain();
    for feature in ["id", "stream", "slope", "elevation", "vegetation"] {
        let mut ids: Vec<i32> = Vec::new();
        for (_, part) in t.partition_table(feature).unwrap() {
            for id in part.get_column("id").unwrap() {
                match id {
                    TableType::Int(i) => ids.push(*i),
                    _ => unreachable!(),
                }
            }
        }
        assert_eq!(ids.len(), 7);
        ids.sort();
        assert_eq!(ids, vec![1, 2, 3, 4, 5, 6, 7]);
    }
}

#[test]
fn an_empty_table_has_no_parts() {
    let t = Table::new(names(&["a", "b"]), vec![vec![], vec![]]).unwrap();
    assert!(t.partition_table("a").unwrap().is_empty());
}

#[test]
fn the_parts_of_an_unknown_column_fail() {
    assert!(matches!(terrain().partition_table("aspect"), Err(Id3Error::InvalidColumn)));
}

#[test]
fn the_most_common_value_wins() {
    assert_eq!(most_common(&texts(&["a", "b", "b", "c"])), Some(text("b")));
    assert_eq!(most_common(&texts(&["c"])), Some(text("c")));
    assert_eq!(most_common(&Vec::new()), None);
}

#[test]
fn among_equally_common_values_the_first_met_wins() {
    assert_eq!(most_common(&texts(&["b", "a", "a", "b"])), Some(text("b")));
    assert_eq!(most_common(&texts(&["z", "y", "x"])), Some(text("z")));
    assert_eq!(most_common(&texts(&["c", "a", "a", "c", "b"])), Some(text("c")));
}

#[test]
fn the_tree_of_the_terrain() {
    let t = terrain();
    let tree = t.build_tree(&names(&["stream", "slope", "elevation"]), "vegetation", &by_gain).unwrap();
    let expected = DecisionTree::Node {
        feature: "elevation".to_string(),
        value: text("high"),
        values: texts(&["high", "highest", "low", "medium"]),
        children: vec![
            DecisionTree::Node {
                feature: "slope".to_string(),
                value: text("flat"),
                values: texts(&["flat", "steep"]),
                children: vec![leaf("conifer"), leaf("chapparal")],
            },
            leaf("conifer"),
            leaf("riparian"),
            DecisionTree::Node {
                feature: "stream".to_string(),
                value: TableType::Bool(false),
                values: vec![TableType::Bool(false), TableType::Bool(true)],
                children: vec![leaf("chapparal"), leaf("riparian")],
            },
        ],
    };
    assert_eq!(tree, expected);
}

#[test]
fn every_leaf_of_the_terrain_is_a_vegetation() {
    let t = terrain();
    let kinds = texts(&["chapparal", "riparian", "conifer"]);
    for candidates in [
        names(&["stream", "slope", "elevation"]),
        names(&["elevation", "slope", "stream"]),
        names(&["stream"]),
        names(&["id"]),
        names(&[]),
    ] {
        for score in [by_gain, flat, by_height] {
            let tree = t.build_tree(&candidates, "vegetation", &score).unwrap();
            let mut found = Vec::new();
            leaves(&tree, &mut found);
            assert!(!found.is_empty());
            assert!(found.iter().all(|v| kinds.contains(v)));
        }
    }
}

#[test]
fn a_pure_target_gives_a_leaf() {
    let t = Table::new(
        names(&["a", "b", "label"]),
        vec![texts(&["x", "y", "z"]), vec![TableType::Int(3), TableType::Int(1), TableType::Int(2)], texts(&["yes", "yes", "yes"])],
    )
    .unwrap();
    assert_eq!(t.build_tree(&names(&["a", "b"]), "label", &by_gain), Ok(leaf("yes")));
    assert_eq!(t.build_tree(&names(&["b"]), "label", &flat), Ok(leaf("yes")));
    assert_eq!(t.build_tree(&Vec::new(), "label", &by_gain), Ok(leaf("yes")));
}

#[test]
fn a_single_row_gives_a_leaf() {
    let t = Table::new(names(&["a", "label"]), vec![texts(&["x"]), texts(&["no"])]).unwrap();
    assert_eq!(t.build_tree(&names(&["a"]), "label", &by_gain), Ok(leaf("no")));
}

#[test]
fn without_candidates_the_majority_is_the_leaf() {
    let t = terrain();
    assert_eq!(t.build_tree(&Vec::new(), "vegetation", &by_gain), Ok(leaf("chapparal")));
    assert_eq!(t.build_tree(&Vec::new(), "elevation", &by_gain), Ok(leaf("high")));
    assert_eq!(t.build_tree(&Vec::new(), "stream", &by_gain), Ok(DecisionTree::Leaf(TableType::Bool(true))));
}

#[test]
fn a_tied_majority_is_the_value_met_first() {
    let t = Table::new(names(&["label"]), vec![texts(&["b", "a", "a", "b"])]).unwrap();
    assert_eq!(t.build_tree(&Vec::new(), "label", &by_gain), Ok(leaf("b")));
}

#[test]
fn rows_that_no_feature_tells_apart_end_in_their_majority() {
    let t = Table::new(
        names(&["a", "label"]),
        vec![texts(&["x", "x", "x", "y"]), texts(&["no", "yes", "no", "yes"])],
    )
    .unwrap();
    let tree = t.build_tree(&names(&["a"]), "label", &by_gain).unwrap();
    let expected = DecisionTree::Node {
        feature: "a".to_string(),
        value: text("x"),
        values: texts(&["x", "y"]),
        children: vec![leaf("no"), leaf("yes")],
    };
    assert_eq!(tree, expected);
}

#[test]
fn a_feature_is_split_on_once() {
    let t = Table::new(
        names(&["a", "label"]),
        vec![texts(&["x", "x", "x", "x"]), texts(&["no", "yes", "yes", "no"])],
    )
    .unwrap();
    let tree = t.build_tree(&names(&["a"]), "label", &by_gain).unwrap();
    let expected = DecisionTree::Node {
        feature: "a".to_string(),
        value: text("x"),
        values: texts(&["x"]),
        children: vec![leaf("no")],
    };
    assert_eq!(tree, expected);
}

#[test]
fn a_tree_of_unknown_columns_fails() {
    let t = terrain();
    let all = names(&["stream", "slope", "elevation"]);
    assert_eq!(t.build_tree(&all, "cover", &by_gain), Err(Id3Error::InvalidColumn));
    assert_eq!(t.build_tree(&names(&["stream", "aspect"]), "vegetation", &by_gain), Err(Id3Error::InvalidColumn));
    assert_eq!(t.build_subtree(&all, "cover", &by_gain, &text("none")), Err(Id3Error::InvalidColumn));
}

#[test]
fn an_unknown_candidate_fails_even_for_a_pure_target() {
    let t = Table::new(names(&["a", "label"]), vec![texts(&["x", "y"]), texts(&["yes", "yes"])]).unwrap();
    assert_eq!(t.build_tree(&names(&["b"]), "label", &by_gain), Err(Id3Error::InvalidColumn));
}

#[test]
fn a_table_without_rows_has_no_tree_of_its_own() {
    let t = Table::new(names(&["a", "label"]), vec![vec![], vec![]]).unwrap();
    assert_eq!(t.build_tree(&names(&["a"]), "label", &by_gain), Err(Id3Error::EmptyDataset));
    assert_eq!(t.build_tree(&Vec::new(), "label", &by_gain), Err(Id3Error::EmptyDataset));
    assert_eq!(t.build_tree(&names(&["a"]), "cover", &by_gain), Err(Id3Error::InvalidColumn));
}

#[test]
fn a_part_without_rows_takes_the_majority_of_its_parent() {
    let empty = terrain().select_rows(&Vec::new()).unwrap();
    let all = names(&["stream", "slope", "elevation"]);
    assert_eq!(empty.build_subtree(&all, "vegetation", &by_gain, &text("chapparal")), Ok(leaf("chapparal")));
    assert_eq!(empty.build_subtree(&Vec::new(), "vegetation", &by_gain, &text("conifer")), Ok(leaf("conifer")));
}

#[test]
fn a_part_with_rows_does_not_need_its_parent() {
    let t = terrain();
    let all = names(&["stream", "slope", "elevation"]);
    let alone = t.build_tree(&all, "vegetation", &by_gain).unwrap();
    let below = t.build_subtree(&all, "vegetation", &by_gain, &text("none")).unwrap();
    assert_eq!(alone, below);
}

#[test]
fn the_tree_depends_on_the_order_of_the_candidates_only_in_ties() {
    let t = terrain();
    let forward = t.build_tree(&names(&["stream", "slope", "elevation"]), "vegetation", &by_gain).unwrap();
    let backward = t.build_tree(&names(&["elevation", "slope", "stream"]), "vegetation", &by_gain).unwrap();
    assert_eq!(forward, backward);
    let first = t.build_tree(&names(&["stream", "slope"]), "vegetation", &flat).unwrap();
    match first {
        DecisionTree::Node { feature, values, children, .. } => {
            assert_eq!(feature, "stream");
            assert_eq!(values, vec![TableType::Bool(false), TableType::Bool(true)]);
            assert_eq!(children.len(), 2);
        }
        DecisionTree::Leaf(_) => panic!("a node was expected"),
    }
}

#[test]
fn a_candidate_may_be_listed_twice() {
    let t = terrain();
    let once = t.build_tree(&names(&["elevation"]), "vegetation", &by_gain).unwrap();
    let twice = t.build_tree(&names(&["elevation", "elevation"]), "vegetation", &by_gain).unwrap();
    match (&once, &twice) {
        (
            DecisionTree::Node { feature: a, values: v, children: c, .. },
            DecisionTree::Node { feature: b, values: w, children: d, .. },
        ) => {
            assert_eq!(a, "elevation");
            assert_eq!(b, "elevation");
            assert_eq!(v, w);
            assert_eq!(c.len(), 4);
            assert_eq!(d.len(), 4);
            assert_eq!(c[0], leaf("chapparal"));
            assert_eq!(c[3], leaf("riparian"));
            match &d[0] {
                DecisionTree::Node { feature, values, children, .. } => {
                    assert_eq!(feature, "elevation");
                    assert_eq!(values, &texts(&["high"]));
                    assert_eq!(children, &vec![leaf("chapparal")]);
                }
                DecisionTree::Leaf(_) => panic!("a node was expected"),
            }
        }
        _ => panic!("two nodes were expected"),
    }
}

#[test]
fn the_target_may_be_a_candidate() {
    let t = terrain();
    let tree = t.build_tree(&names(&["vegetation"]), "vegetation", &by_gain).unwrap();
    let expected = DecisionTree::Node {
        feature: "vegetation".to_string(),
        value: text("chapparal"),
        values: texts(&["chapparal", "conifer", "riparian"]),
        children: vec![leaf("chapparal"), leaf("conifer"), leaf("riparian")],
    };
    assert_eq!(tree, expected);
}

#[test]
fn no_path_is_longer_than_the_candidates() {
    fn height(tree: &DecisionTree) -> usize {
        match tree {
            DecisionTree::Leaf(_) => 0,
            DecisionTree::Node { children, .. } => 1 + children.iter().map(height).max().unwrap_or(0),
        }
    }
    let t = terrain();
    for candidates in [
        names(&["stream", "slope", "elevation"]),
        names(&["stream", "slope"]),
        names(&["stream"]),
        names(&[]),
    ] {
        for score in [by_gain, flat, by_height] {
            let tree = t.build_tree(&candidates, "vegetation", &score).unwrap();
            assert!(height(&tree) <= candidates.len());
        }
    }
}

#[test]
fn each_child_belongs_to_a_value_of_the_feature() {
    fn paired(tree: &DecisionTree) -> bool {
        match tree {
            DecisionTree::Leaf(_) => true,
            DecisionTree::Node { value, values, children, .. } => {
                values.len() == children.len()
                    && !values.is_empty()
                    && *value == values[0]
                    && values.windows(2).all(|w| w[0].precedes(&w[1]))
                    && children.iter().all(paired)
            }
        }
    }
    let t = terrain();
    let tree = t.build_tree(&names(&["stream", "slope", "elevation"]), "vegetation", &by_gain).unwrap();
    assert!(paired(&tree));
    let tree = t.build_tree(&names(&["slope", "stream"]), "elevation", &flat).unwrap();
    assert!(paired(&tree));
}
