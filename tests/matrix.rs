use termdoc::matrix::TDM;

#[test]
fn tdm_example_corpus() {
    let docs = vec![vec!["a", "b", "a"], vec!["b", "c"]];
    let tdm = TDM::from(&docs);
    assert_eq!(tdm.keys, vec!["a".to_string(), "b".to_string(), "c".to_string()]);
    assert_eq!(tdm.values, vec![vec![2, 1, 0], vec![0, 1, 1]]);
}

#[test]
fn tdm_example_document_frequencies_and_weights() {
    let docs = vec![vec!["a", "b", "a"], vec!["b", "c"]];
    let tdm = TDM::from(&docs);
    let df = tdm.document_frequencies();
    assert_eq!(df, vec![1, 2, 1]);
    let n = tdm.values.len() as f64;
    let weights: Vec<Vec<f64>> = tdm
        .values
        .iter()
        .map(|row| {
            row.iter()
                .zip(df.iter())
                .map(|(tf, df)| *tf as f64 * ((n + 1.0) / (1.0 + *df as f64)).ln())
                .collect()
        })
        .collect();
    assert!((weights[0][0] - 0.811).abs() < 1e-3);
    assert_eq!(weights[0][1], 0.0);
    assert_eq!(weights[0][2], 0.0);
    assert_eq!(weights[1][0], 0.0);
    assert_eq!(weights[1][1], 0.0);
    assert!((weights[1][2] - 0.405).abs() < 1e-3);
}

#[test]
fn tdm_column_in_every_document_has_full_frequency() {
    let docs = vec![vec!["x", "y"], vec!["y", "y"], vec!["z", "y"]];
    let tdm = TDM::from(&docs);
    let df = tdm.document_frequencies();
    assert_eq!(df, vec![1, 3, 1]);
    assert_eq!(df[1], tdm.values.len());
}

#[test]
fn tdm_rows_span_whole_vocabulary() {
    let docs = vec![vec!["a"], vec!["b", "c", "d"], vec![]];
    let tdm = TDM::from(&docs);
    assert_eq!(tdm.values.len(), 3);
    for row in &tdm.values {
        assert_eq!(row.len(), 4);
    }
    assert_eq!(tdm.values[0], vec![1, 0, 0, 0]);
    assert_eq!(tdm.values[1], vec![0, 1, 1, 1]);
    assert_eq!(tdm.values[2], vec![0, 0, 0, 0]);
}

#[test]
fn tdm_vocabulary_wider_than_ten() {
    let words = ["w0", "w1", "w2", "w3", "w4", "w5", "w6", "w7", "w8", "w9", "w10", "w11"];
    let docs = vec![words.to_vec(), vec!["w11", "w11"]];
    let tdm = TDM::from(&docs);
    assert_eq!(tdm.keys.len(), 12);
    assert_eq!(tdm.values[0], vec![1; 12]);
    let mut second = vec![0; 12];
    second[11] = 2;
    assert_eq!(tdm.values[1], second);
}

#[test]
fn tdm_empty_corpus() {
    let docs: Vec<Vec<&str>> = Vec::new();
    let tdm = TDM::from(&docs);
    assert!(tdm.keys.is_empty());
    assert!(tdm.values.is_empty());
    assert!(tdm.document_frequencies().is_empty());
}
