use ngram_lm::bigram::Bigram;
use ngram_lm::ratio::Ratio;
use ngram_lm::sample::select_token;
use ngram_lm::text::clean_text;
use ngram_lm::unigram::Unigram;

const CORPUS: &str = "the cat sat.\nthe dog sat.";

fn as_float(r: Ratio) -> f64 {
    r.num as f64 / r.den as f64
}

fn perplexity_value(terms: &[Ratio]) -> f64 {
    let cnt = terms.len();
    let mut sum = 0.0f64;
    for t in terms {
        sum += as_float(*t).ln();
    }
    ((-1.0 / cnt as f64) * sum).exp()
}

#[test]
fn normalize_strips_punctuation_and_lowercases() {
    let out = clean_text(String::from("the cat sat.\nThe dog sat!"));
    assert_eq!(out, "the cat sat\nthe dog sat");
    let out2 = clean_text(String::from("He said, \"don't?\""));
    assert_eq!(out2, "he said dont");
}

#[test]
fn normalize_lowercases_beyond_ascii() {
    assert_eq!(clean_text(String::from("Élan, NAÏVE!")), "élan naïve");
}

#[test]
fn selection_walks_the_table_by_inverse_cdf() {
    let table = vec![
        (String::from("a"), 3usize),
        (String::from("b"), 1usize),
    ];
    // cumulative sums: "a" covers 0..3, "b" covers 3..4
    assert_eq!(select_token(&table, 0, None), Some(0));
    assert_eq!(select_token(&table, 2, None), Some(0));
    assert_eq!(select_token(&table, 3, None), Some(1));
    let skip_table = vec![
        (String::from("<s>"), 2usize),
        (String::from("a"), 1usize),
    ];
    let start = String::from("<s>");
    // the start marker is passed over without its mass being added ...
    assert_eq!(select_token(&skip_table, 0, Some(&start)), Some(1));
    // ... so a draw inside its mass but past the rest selects nothing
    assert_eq!(select_token(&skip_table, 1, Some(&start)), None);
    // without the skip the same draws select the start marker
    assert_eq!(select_token(&skip_table, 0, None), Some(0));
    assert_eq!(select_token(&skip_table, 1, None), Some(0));
    assert_eq!(select_token(&skip_table, 2, None), Some(1));
}

#[test]
fn normalize_is_idempotent() {
    let once = clean_text(String::from(CORPUS));
    let twice = clean_text(once.clone());
    assert_eq!(once, twice);
    assert_eq!(once, "the cat sat\nthe dog sat");
}

#[test]
fn unigram_counts_concrete_corpus() {
    let uni = Unigram::construt(CORPUS);
    assert_eq!(uni.prob("the"), Ratio { num: 2, den: 10 });
    assert_eq!(uni.prob("sat"), Ratio { num: 2, den: 10 });
    assert_eq!(uni.prob("cat"), Ratio { num: 1, den: 10 });
    assert_eq!(uni.prob("dog"), Ratio { num: 1, den: 10 });
    assert_eq!(uni.prob("<s>"), Ratio { num: 2, den: 10 });
    assert_eq!(uni.prob("</s>"), Ratio { num: 2, den: 10 });
    assert_eq!(uni.prob("fox"), Ratio { num: 0, den: 10 });
    assert_eq!(as_float(uni.prob("the")), 0.2);
    assert_eq!(as_float(uni.prob("fox")), 0.0);
    assert_eq!(uni.vocab_len(), 6);
}

#[test]
fn unigram_probabilities_sum_to_one() {
    let uni = Unigram::construt(CORPUS);
    let vocab = ["the", "cat", "sat", "dog", "<s>", "</s>"];
    let mut sum = 0.0f64;
    for w in vocab {
        sum += as_float(uni.prob(w));
    }
    assert!((sum - 1.0).abs() < 1e-12);
}

#[test]
fn bigram_counts_concrete_corpus() {
    let bi = Bigram::construt(CORPUS);
    assert_eq!(bi.prob("the", "cat"), Ratio { num: 1, den: 2 });
    assert_eq!(bi.prob("the", "dog"), Ratio { num: 1, den: 2 });
    assert_eq!(bi.prob("the", "fox"), Ratio { num: 0, den: 2 });
    assert_eq!(as_float(bi.prob("the", "cat")), 0.5);
    assert_eq!(as_float(bi.prob("the", "dog")), 0.5);
    assert_eq!(as_float(bi.prob("the", "fox")), 0.0);
    assert_eq!(bi.prob("<s>", "the"), Ratio { num: 2, den: 2 });
    assert_eq!(bi.prob("sat", "</s>"), Ratio { num: 2, den: 2 });
    assert_eq!(bi.vocab_len(), 6);
}

#[test]
fn bigram_unobserved_context_is_exactly_zero() {
    let bi = Bigram::construt(CORPUS);
    for w in ["the", "cat", "sat", "dog", "<s>", "</s>", "fox"] {
        let r = bi.prob("fox", w);
        assert_eq!(r, Ratio { num: 0, den: 1 });
        assert_eq!(as_float(r), 0.0);
    }
    // the end sentinel never precedes anything either
    assert_eq!(bi.prob("</s>", "the"), Ratio { num: 0, den: 1 });
}

#[test]
fn bigram_observed_context_sums_to_one() {
    let bi = Bigram::construt(CORPUS);
    let vocab = ["the", "cat", "sat", "dog", "<s>", "</s>"];
    for ctx in ["the", "cat", "sat", "dog", "<s>"] {
        let mut sum = 0.0f64;
        for w in vocab {
            sum += as_float(bi.prob(ctx, w));
        }
        assert!((sum - 1.0).abs() < 1e-12, "context {ctx} sums to {sum}");
    }
}

#[test]
fn unigram_sample_sentence_is_delimited() {
    let uni = Unigram::construt(CORPUS);
    for _ in 0..20 {
        let s = uni.random_sentence();
        assert!(s.starts_with("<s>"));
        assert!(s.ends_with("</s>"));
    }
}

#[test]
fn bigram_sample_sentence_is_delimited() {
    let bi = Bigram::construt(CORPUS);
    for _ in 0..20 {
        let s = bi.random_sentence();
        assert!(s.starts_with("<s>"));
        assert!(s.ends_with("</s>"));
    }
}

#[test]
fn sample_sentence_on_empty_model_is_just_the_sentinels() {
    let uni = Unigram::construt("");
    assert_eq!(uni.random_sentence(), "<s> </s>");
    let bi = Bigram::construt("");
    assert_eq!(bi.random_sentence(), "<s> </s>");
}

#[test]
fn unigram_perplexity_on_training_corpus_is_finite_and_at_least_one() {
    let uni = Unigram::construt(CORPUS);
    let terms = uni.perplexity(CORPUS);
    assert_eq!(terms.len(), 10);
    for t in &terms {
        assert!(t.num >= 1 && t.num <= t.den);
    }
    let pp = perplexity_value(&terms);
    assert!(pp.is_finite());
    assert!(pp >= 1.0);
}

#[test]
fn bigram_perplexity_on_training_corpus_is_finite_and_at_least_one() {
    let bi = Bigram::construt(CORPUS);
    let terms = bi.perplexity(CORPUS);
    assert_eq!(terms.len(), 8);
    for t in &terms {
        assert!(t.num >= 1 && t.num <= t.den);
    }
    let pp = perplexity_value(&terms);
    assert!(pp.is_finite());
    assert!(pp >= 1.0);
}

#[test]
fn unigram_perplexity_with_unseen_token_is_infinite() {
    let uni = Unigram::construt(CORPUS);
    let terms = uni.perplexity("the fox sat");
    assert!(terms.iter().any(|t| t.num == 0));
    let pp = perplexity_value(&terms);
    assert!(pp.is_infinite() || pp.is_nan());
}

#[test]
fn empty_corpus_keeps_both_sentinels_with_zero_counts() {
    let uni = Unigram::construt("");
    assert_eq!(uni.vocab_len(), 2);
    let r = uni.prob("<s>");
    assert_eq!(r, Ratio { num: 0, den: 0 });
    assert!(as_float(r).is_nan());
    assert!(as_float(uni.prob("anything")).is_nan());
    let uni2 = Unigram::construt("\n\n");
    assert_eq!(uni2.vocab_len(), 2);
    assert_eq!(uni2.prob("</s>"), Ratio { num: 0, den: 0 });
}

#[test]
fn consecutive_spaces_count_an_empty_token() {
    let uni = Unigram::construt("a  b");
    // tokens: "a", "", "b", plus one start and one end sentinel
    assert_eq!(uni.vocab_len(), 5);
    assert_eq!(uni.prob(""), Ratio { num: 1, den: 5 });
    let bi = Bigram::construt("a  b");
    assert_eq!(bi.prob("a", ""), Ratio { num: 1, den: 1 });
    assert_eq!(bi.prob("", "b"), Ratio { num: 1, den: 1 });
}
