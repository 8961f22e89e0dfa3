use namethingy::{Error, NameGenerator, Token};

fn ngram(s: &str) -> Vec<char> {
    s.chars().collect()
}

#[test]
fn training_counts_windows() {
    let mut g = NameGenerator::with_order(2);
    g.train_word("abc");
    assert_eq!(g.trained_windows(), 2);
    assert_eq!(g.start_state_count(&ngram("ab")), 1);
    assert_eq!(g.start_state_count(&ngram("bc")), 0);
    assert_eq!(g.transition_count(&ngram("ab"), Token::Char('c')), 1);
    assert_eq!(g.transition_count(&ngram("ab"), Token::End), 0);
    assert_eq!(g.transition_count(&ngram("bc"), Token::End), 1);
}

#[test]
fn short_word_adds_nothing() {
    let mut g = NameGenerator::with_order(2);
    g.train_word("a");
    g.train_word("");
    assert_eq!(g.trained_windows(), 0);
    assert_eq!(g.start_state_count(&ngram("a")), 0);
    assert_eq!(g.generate(), Err(Error::Empty));
}

#[test]
fn trivial_model_generates_its_word() {
    let mut g = NameGenerator::with_order(1);
    g.train_word("ab");
    for _ in 0..50 {
        assert_eq!(g.generate(), Ok(String::from("ab")));
    }
}

#[test]
fn untrained_model_is_empty() {
    let g = NameGenerator::new();
    assert_eq!(g.order(), 2);
    assert_eq!(g.generate(), Err(Error::Empty));
    let d = NameGenerator::default();
    assert_eq!(d.generate(), Err(Error::Empty));
    assert_eq!(Error::Empty.message(), "Generator is not trained/empty");
}

#[test]
fn generation_leaves_model_unchanged() {
    let mut g = NameGenerator::with_order(2);
    g.train(&["anna", "hannah", "nan"]);
    let keys = ["an", "nn", "na", "ha", "ah", "ab"];
    let nexts = [Token::Char('a'), Token::Char('n'), Token::Char('h'), Token::End];
    let snapshot = |g: &NameGenerator| {
        let mut v = Vec::new();
        for k in keys.iter() {
            v.push(g.start_state_count(&ngram(k)));
            for t in nexts.iter() {
                v.push(g.transition_count(&ngram(k), *t));
            }
        }
        (v, g.trained_windows())
    };
    let before = snapshot(&g);
    for _ in 0..100 {
        assert!(g.generate().is_ok());
    }
    assert_eq!(snapshot(&g), before);
}

#[test]
fn generated_names_follow_transitions() {
    let mut g = NameGenerator::with_order(2);
    g.train(&["anna", "hannah", "nan"]);
    assert_eq!(g.trained_windows(), 3 + 5 + 2);
    assert_eq!(g.transition_count(&ngram("an"), Token::Char('n')), 2);
    assert_eq!(g.transition_count(&ngram("an"), Token::End), 1);
    let mut it = g.iter();
    for _ in 0..100 {
        let name: Vec<char> = it.next().unwrap().unwrap().chars().collect();
        assert!(name.len() >= 2);
        assert!(g.start_state_count(&name[0..2].to_vec()) > 0);
        for i in 0..name.len() - 2 {
            assert!(g.transition_count(&name[i..i + 2].to_vec(), Token::Char(name[i + 2])) > 0);
        }
        let last = name[name.len() - 2..].to_vec();
        assert!(g.transition_count(&last, Token::End) > 0);
    }
}

#[test]
fn long_walks_stop_at_limit() {
    let mut g = NameGenerator::with_order(1);
    let word: String = std::iter::repeat('a').take(2000).collect();
    g.train_word(&word);
    assert_eq!(g.transition_count(&ngram("a"), Token::Char('a')), 1999);
    assert_eq!(g.transition_count(&ngram("a"), Token::End), 1);
    let mut capped = 0;
    for _ in 0..20 {
        let name = g.generate().unwrap();
        let n = name.chars().count();
        assert!(name.chars().all(|c| c == 'a'));
        assert!(n >= 1 && n <= namethingy::NAME_LENGTH_LIMIT);
        if n == namethingy::NAME_LENGTH_LIMIT {
            capped += 1;
        }
    }
    assert!(capped > 0);
}

#[test]
fn iterator_yields_names() {
    let mut g = NameGenerator::new();
    g.train_word("zed");
    let mut it = g.iter();
    assert_eq!(it.next(), Some(Ok(String::from("zed"))));
    assert_eq!(it.next(), Some(Ok(String::from("zed"))));
}
