use news_bayes::eval::evaluate;
use news_bayes::model::{Model, News};

fn doc(label: u32, title: &str, description: &str) -> News {
    News { class_index: label, title: title.to_string(), description: description.to_string() }
}

fn two_class_model() -> Model {
    Model::empty(vec!["Sports".to_string(), "Finance".to_string()])
}

fn word(s: &str) -> Vec<char> {
    s.chars().collect()
}

#[test]
fn train_accumulates_counts() {
    let mut model = two_class_model();
    model.train(vec![
        doc(1, "sports sports", "ball"),
        doc(1, "ball", ""),
        doc(2, "money", "money market"),
    ]);
    assert_eq!(model.classes[0].document_count, 2);
    assert_eq!(model.classes[0].total_word_count, 4);
    assert_eq!(model.classes[0].word_count.get(&word("sports")), 2);
    assert_eq!(model.classes[0].word_count.get(&word("ball")), 2);
    assert_eq!(model.classes[0].word_count.get(&word("money")), 0);
    assert_eq!(model.classes[1].document_count, 1);
    assert_eq!(model.classes[1].total_word_count, 3);
    assert_eq!(model.classes[1].word_count.get(&word("money")), 2);
    assert_eq!(model.classes[1].word_count.get(&word("market")), 1);
}

#[test]
fn train_total_equals_sum_of_word_counts() {
    let mut model = two_class_model();
    model.train(vec![doc(1, "a b a", "c"), doc(2, "b b", "x y z"), doc(1, "a", "")]);
    for class in &model.classes {
        let mut sum = 0;
        for w in ["a", "b", "c", "x", "y", "z"] {
            sum += class.word_count.get(&word(w));
        }
        assert_eq!(class.total_word_count, sum);
    }
}

#[test]
fn train_order_does_not_matter() {
    let docs = [
        doc(1, "alpha beta", "gamma"),
        doc(2, "delta", "alpha alpha"),
        doc(1, "beta beta", ""),
        doc(2, "gamma delta", "beta"),
    ];
    let mut m1 = two_class_model();
    m1.train(vec![docs[0].clone(), docs[1].clone(), docs[2].clone(), docs[3].clone()]);
    let mut m2 = two_class_model();
    m2.train(vec![docs[3].clone(), docs[1].clone(), docs[0].clone(), docs[2].clone()]);
    for c in 0..2 {
        assert_eq!(m1.classes[c].document_count, m2.classes[c].document_count);
        assert_eq!(m1.classes[c].total_word_count, m2.classes[c].total_word_count);
        for w in ["alpha", "beta", "gamma", "delta"] {
            assert_eq!(
                m1.classes[c].word_count.get(&word(w)),
                m2.classes[c].word_count.get(&word(w))
            );
        }
    }
}

#[test]
fn classify_separable_vocabularies() {
    let mut model = two_class_model();
    model.train(vec![
        doc(1, "sports sports", "sports"),
        doc(1, "sports", "sports"),
        doc(2, "finance finance", "finance"),
        doc(2, "finance", "finance"),
    ]);
    let (pred, score) = model.classify(&doc(1, "sports", ""));
    assert_eq!(pred, 0);
    assert!(!score.is_zero());
    let (pred, score) = model.classify(&doc(2, "finance", ""));
    assert_eq!(pred, 1);
    assert!(!score.is_zero());
}

#[test]
fn classify_unseen_word_scores_zero_everywhere() {
    let mut model = two_class_model();
    model.train(vec![doc(1, "sports", "sports"), doc(2, "finance", "finance")]);
    let unseen = doc(1, "cryptozoology", "");
    assert!(model.class_score_is_zero(&unseen, 0));
    assert!(model.class_score_is_zero(&unseen, 1));
    let (pred, score) = model.classify(&unseen);
    assert_eq!(pred, 0);
    assert!(score.is_zero());
}

#[test]
fn classify_deterministic() {
    let mut model = two_class_model();
    model.train(vec![doc(1, "a b", "c"), doc(2, "d e", "f"), doc(1, "a", "d")]);
    let d = doc(1, "a d", "e");
    let (p1, s1) = model.classify(&d);
    let (p2, s2) = model.classify(&d);
    assert_eq!(p1, p2);
    assert_eq!(s1.is_zero(), s2.is_zero());
    assert_eq!(s1.limbs, s2.limbs);
}

#[test]
fn classify_untrained_model_returns_class_zero() {
    let model = two_class_model();
    let (pred, score) = model.classify(&doc(1, "anything", ""));
    assert_eq!(pred, 0);
    assert!(score.is_zero());
}

#[test]
fn tie_keeps_lowest_class_index() {
    let mut model = two_class_model();
    model.train(vec![doc(1, "shared", ""), doc(2, "shared", "")]);
    let (pred, score) = model.classify(&doc(1, "shared", ""));
    assert_eq!(pred, 0);
    assert!(!score.is_zero());
}

#[test]
fn later_class_wins_with_strictly_greater_score() {
    let mut model = two_class_model();
    model.train(vec![doc(1, "shared other", ""), doc(2, "shared", "")]);
    // class 1 gives "shared" likelihood 1/1, class 0 only 1/2
    let (pred, _) = model.classify(&doc(1, "shared", ""));
    assert_eq!(pred, 1);
}

#[test]
fn empty_document_ranks_classes_by_prior() {
    let mut model = two_class_model();
    model.train(vec![doc(1, "a", ""), doc(2, "b", ""), doc(2, "c", "")]);
    let (pred, score) = model.classify(&doc(1, "", ""));
    assert_eq!(pred, 1);
    assert!(!score.is_zero());
}

#[test]
fn evaluate_counts_every_document_once() {
    let mut model = two_class_model();
    model.train(vec![doc(1, "sports", ""), doc(2, "finance", "")]);
    let held_out = vec![
        doc(1, "sports", ""),
        doc(2, "finance", ""),
        doc(2, "sports", ""),
    ];
    let ev = evaluate(&model, &held_out);
    let mut total = 0;
    for row in &ev.confusion {
        for cell in row {
            total += cell;
        }
    }
    assert_eq!(total, 3);
}

#[test]
fn evaluate_confusion_cells() {
    let mut model = two_class_model();
    model.train(vec![doc(1, "sports", ""), doc(2, "finance", "")]);
    let held_out = vec![doc(1, "sports", ""), doc(2, "sports", ""), doc(2, "finance", "")];
    let ev = evaluate(&model, &held_out);
    assert_eq!(ev.confusion[0][0], 1);
    assert_eq!(ev.confusion[0][1], 1);
    assert_eq!(ev.confusion[1][1], 1);
    assert_eq!(ev.confusion[1][0], 0);
}

#[test]
fn precision_is_a_fraction_in_unit_range() {
    let mut model = two_class_model();
    model.train(vec![doc(1, "sports", ""), doc(2, "finance", "")]);
    let held_out = vec![doc(1, "sports", ""), doc(2, "sports", ""), doc(2, "finance", "")];
    let ev = evaluate(&model, &held_out);
    for c in 0..2 {
        if let Some((num, den)) = ev.precision(c) {
            assert!(den > 0);
            assert!(num <= den);
        }
    }
    assert_eq!(ev.precision(0), Some((1, 2)));
    assert_eq!(ev.precision(1), Some((1, 1)));
    assert_eq!(ev.overall_precision(), Some((2, 3)));
}

#[test]
fn precisions_align_with_classes() {
    let mut model = two_class_model();
    model.train(vec![doc(1, "sports", ""), doc(2, "finance", "")]);
    let held_out = vec![doc(1, "sports", ""), doc(2, "sports", ""), doc(2, "finance", "")];
    let ev = evaluate(&model, &held_out);
    assert_eq!(ev.precisions(), vec![Some((1, 2)), Some((1, 1))]);
}

#[test]
fn precision_undefined_for_never_predicted_class() {
    let mut model = two_class_model();
    model.train(vec![doc(1, "sports", ""), doc(2, "finance", "")]);
    let held_out = vec![doc(1, "sports", ""), doc(2, "sports", "")];
    let ev = evaluate(&model, &held_out);
    assert_eq!(ev.precision(1), None);
}

#[test]
fn overall_precision_undefined_without_documents() {
    let model = two_class_model();
    let ev = evaluate(&model, &Vec::new());
    assert_eq!(ev.overall_precision(), None);
}

#[test]
fn separable_dataset_reaches_full_accuracy() {
    let mut model = two_class_model();
    model.train(vec![
        doc(1, "goal match team", "score win"),
        doc(1, "team team goal", "match"),
        doc(2, "stock bond market", "price yield"),
        doc(2, "market price", "stock stock"),
    ]);
    let held_out = vec![
        doc(1, "goal team", "win"),
        doc(1, "match score", ""),
        doc(2, "bond yield", "market"),
        doc(2, "price stock", ""),
    ];
    let ev = evaluate(&model, &held_out);
    assert_eq!(ev.overall_precision(), Some((4, 4)));
}

#[test]
fn words_joins_title_and_description() {
    let d = doc(1, "Big Cats", "run FAST");
    let words: Vec<String> =
        d.words().into_iter().map(|t| t.into_iter().collect()).collect();
    assert_eq!(
        words,
        vec!["big".to_string(), "cats".to_string(), "run".to_string(), "fast".to_string()]
    );
}
