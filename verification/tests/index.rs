use tag_crucible::index::LabelIndex;

#[test]
fn index_lists_the_places_of_a_label_in_order() {
    let labels: Vec<String> = ["a", "b", "a", "", "c", "a", "b"]
        .iter()
        .map(|s| s.to_string())
        .collect();
    let index = LabelIndex::build(&labels);
    assert_eq!(index.places("a"), vec![0, 2, 5]);
    assert_eq!(index.places("b"), vec![1, 6]);
    assert_eq!(index.places("c"), vec![4]);
    assert_eq!(index.places(""), vec![3]);
    assert!(index.places("missing").is_empty());

    let empty = LabelIndex::build(&Vec::new());
    assert!(empty.places("a").is_empty());
}
