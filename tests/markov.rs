use markov_bot::context::TokenContext;
use markov_bot::knowledge::{GenerateError, KnowledgeBase, TrainError};
use markov_bot::source::{IndexSource, LowestSource, ThreadSource};
use markov_bot::token::{Token, TokenKind};
use markov_bot::tokenizer::{tokenize, TokenizeError};

fn word(s: &str) -> Token {
    Token::with_value(TokenKind::Word, s)
}

fn punct(s: &str) -> Token {
    Token::with_value(TokenKind::Punct, s)
}

fn start() -> Token {
    Token::new(TokenKind::InputStart)
}

fn end() -> Token {
    Token::new(TokenKind::InputEnd)
}

fn trained(lines: &[&str]) -> KnowledgeBase {
    let mut kb = KnowledgeBase::new();
    for line in lines {
        let tokens = tokenize(line).unwrap();
        assert!(kb.fits(tokens.len()));
        kb.train(&tokens);
    }
    kb
}

#[test]
fn empty_line_gives_only_markers() {
    assert_eq!(tokenize("").unwrap(), vec![start(), end()]);
}

#[test]
fn words_and_punctuation_are_separated() {
    let tokens = tokenize("Hello, world!").unwrap();
    assert_eq!(tokens, vec![start(), word("Hello"), punct(","), word("world"), punct("!"), end()]);
}

#[test]
fn whitespace_runs_are_dropped() {
    let tokens = tokenize("  it's \t fine...  ").unwrap();
    assert_eq!(tokens, vec![start(), word("it's"), word("fine"), punct("..."), end()]);
}

#[test]
fn non_ascii_letters_are_word_characters() {
    let tokens = tokenize("café 42").unwrap();
    assert_eq!(tokens, vec![start(), word("café"), word("42"), end()]);
}

#[test]
fn unknown_character_is_an_error() {
    assert_eq!(tokenize("a $ b"), Err(TokenizeError::UnrecognizedCharacter));
    assert_eq!(tokenize("-"), Err(TokenizeError::UnrecognizedCharacter));
}

#[test]
fn texts_rebuild_the_line_without_whitespace() {
    let line = "Well, hi  there!";
    let tokens = tokenize(line).unwrap();
    let joined: Vec<&str> = tokens.iter().filter_map(|t| t.value()).collect();
    assert_eq!(joined.join(" "), "Well , hi there !");
    assert_eq!(joined.concat(), "Well,hithere!");
}

#[test]
fn kind_names_round_trip() {
    for kind in [TokenKind::InputStart, TokenKind::Punct, TokenKind::Word, TokenKind::Space, TokenKind::InputEnd] {
        assert_eq!(TokenKind::with_name(kind.as_str()), kind);
    }
    assert_eq!(TokenKind::Punct.as_str(), "Punct");
}

#[test]
fn token_accessors() {
    assert!(!end().is_not_end());
    assert!(start().is_not_end());
    assert_eq!(word("x").value(), Some("x"));
    assert_eq!(start().value(), None);
    assert!(word("x").same_as(&word("x")));
    assert!(!word("x").same_as(&punct("x")));
    assert!(word("x").duplicate().same_as(&word("x")));
}

#[test]
fn context_counts_and_total() {
    let mut ctx = TokenContext::new(&word("a"));
    ctx.add_next(&word("b"));
    ctx.add_next(&word("c"));
    ctx.add_next(&word("b"));
    assert_eq!(ctx.total_weight(), 3);
    assert_eq!(ctx.count(&word("b")), 2);
    assert_eq!(ctx.count(&word("c")), 1);
    assert_eq!(ctx.count(&word("d")), 0);
    assert_eq!(ctx.successors.len(), 2);
}

#[test]
fn weighted_pick_partitions_the_index_range() {
    let mut ctx = TokenContext::new(&word("a"));
    for t in ["b", "c", "b", "d", "b", "c"] {
        ctx.add_next(&word(t));
    }
    let mut hits = std::collections::HashMap::new();
    for i in 0..ctx.total_weight() {
        let t = ctx.get_weighted(i).value().unwrap().to_string();
        *hits.entry(t).or_insert(0u32) += 1;
    }
    assert_eq!(hits["b"], 3);
    assert_eq!(hits["c"], 2);
    assert_eq!(hits["d"], 1);
    assert_eq!(ctx.get_weighted(0).value(), Some("b"));
    assert_eq!(ctx.get_weighted(3).value(), Some("c"));
    assert_eq!(ctx.get_weighted(5).value(), Some("d"));
}

#[test]
fn trained_pairs_have_their_counts() {
    let kb = trained(&["a b a b", "b a"]);
    assert_eq!(kb.weight_of(&word("a"), &word("b")), 2);
    assert_eq!(kb.weight_of(&word("b"), &word("a")), 2);
    assert_eq!(kb.weight_of(&word("b"), &end()), 1);
    assert_eq!(kb.weight_of(&word("a"), &end()), 1);
    assert_eq!(kb.weight_of(&start(), &word("a")), 1);
    assert_eq!(kb.weight_of(&start(), &word("b")), 1);
    assert_eq!(kb.total_of(&word("b")), 3);
    assert_eq!(kb.total_of(&word("a")), 3);
    assert_eq!(kb.total_of(&end()), 0);
    assert_eq!(kb.num_tokens(), 3);
}

#[test]
fn training_twice_doubles_counts_without_new_tokens() {
    let once = trained(&["the cat sat."]);
    let twice = trained(&["the cat sat.", "the cat sat."]);
    assert_eq!(once.num_tokens(), twice.num_tokens());
    assert_eq!(twice.weight_of(&word("cat"), &word("sat")), 2);
    assert_eq!(twice.weight_of(&word("sat"), &punct(".")), 2);
    assert_eq!(twice.weight_of(&punct("."), &end()), 2);
    assert_eq!(twice.total_of(&start()), 2);
}

#[test]
fn empty_line_trains_only_start_to_end() {
    let kb = trained(&[""]);
    assert_eq!(kb.num_tokens(), 1);
    assert_eq!(kb.weight_of(&start(), &end()), 1);
    assert_eq!(kb.total_of(&start()), 1);
    assert_eq!(kb.gen_output(&mut LowestSource::new()), Ok(String::new()));
}

#[test]
fn acyclic_graph_generates_its_line() {
    let kb = trained(&["hi there"]);
    let mut rng = ThreadSource::new();
    assert_eq!(kb.gen_output(&mut rng), Ok("hi there".to_string()));
}

#[test]
fn lowest_index_walks_first_successors() {
    let kb = trained(&["a b", "a c"]);
    assert_eq!(kb.weight_of(&start(), &word("a")), 2);
    assert_eq!(kb.weight_of(&word("a"), &word("b")), 1);
    assert_eq!(kb.weight_of(&word("a"), &word("c")), 1);
    assert_eq!(kb.total_of(&word("a")), 2);
    assert_eq!(kb.gen_output(&mut LowestSource::new()), Ok("a b".to_string()));
}

#[test]
fn punctuation_is_spaced_in_output() {
    let kb = trained(&["Hello, world!"]);
    assert_eq!(kb.gen_output(&mut LowestSource::new()), Ok("Hello , world !".to_string()));
}

#[test]
fn generating_before_training_is_missing_context() {
    let kb = KnowledgeBase::new();
    assert_eq!(kb.gen_output(&mut LowestSource::new()), Err(GenerateError::MissingContext));
    assert_eq!(kb.num_tokens(), 0);
}

#[test]
fn random_generation_stays_on_trained_lines() {
    let kb = trained(&["a b", "a c"]);
    let mut rng = ThreadSource::new();
    for _ in 0..50 {
        let out = kb.gen_output(&mut rng).unwrap();
        assert!(out == "a b" || out == "a c");
    }
}

#[test]
fn thread_source_draws_below_bound() {
    let mut rng = ThreadSource::new();
    for bound in 1..20u32 {
        assert!(rng.index_below(bound) < bound);
    }
}

#[test]
fn fits_checks_the_room_left() {
    let kb = trained(&["a"]);
    assert!(kb.fits(10));
    assert!(kb.fits(u32::MAX as usize - 1));
    assert!(!kb.fits(u32::MAX as usize));
}

#[test]
fn train_line_trains_the_tokens_between_markers() {
    let mut kb = KnowledgeBase::new();
    assert_eq!(kb.train_line("hi, you"), Ok(()));
    assert_eq!(kb.weight_of(&start(), &word("hi")), 1);
    assert_eq!(kb.weight_of(&word("hi"), &punct(",")), 1);
    assert_eq!(kb.weight_of(&punct(","), &word("you")), 1);
    assert_eq!(kb.weight_of(&word("you"), &end()), 1);
    assert_eq!(kb.gen_output(&mut LowestSource::new()), Ok("hi , you".to_string()));
}

#[test]
fn train_line_leaves_the_base_alone_on_a_bad_line() {
    let mut kb = KnowledgeBase::new();
    assert_eq!(kb.train_line("a # b"), Err(TrainError::Tokenize(TokenizeError::UnrecognizedCharacter)));
    assert_eq!(kb.num_tokens(), 0);
    assert_eq!(kb.gen_output(&mut LowestSource::new()), Err(GenerateError::MissingContext));
}

#[test]
fn lowest_source_draws_zero() {
    let mut src = LowestSource::new();
    assert_eq!(src.index_below(1), 0);
    assert_eq!(src.index_below(7), 0);
}

#[test]
fn retraining_adds_no_records() {
    let mut kb = KnowledgeBase::new();
    assert_eq!(kb.train_line("one two, three"), Ok(()));
    let n = kb.num_tokens();
    assert_eq!(n, 5);
    assert_eq!(kb.train_line("one two, three"), Ok(()));
    assert_eq!(kb.num_tokens(), n);
    assert_eq!(kb.weight_of(&word("two"), &punct(",")), 2);
}
