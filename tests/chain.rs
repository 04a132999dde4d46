use rusty_markov_traffic::MarkovChain;

#[derive(Debug, Clone, Copy, PartialEq, Eq, PartialOrd, Ord)]
enum UserAction {
    SignIn,
    SignOut,
    CreateTodo,
}

#[derive(Debug, Clone, Copy, PartialEq, Eq, PartialOrd, Ord)]
enum Ev {
    A,
    B,
    C,
}

#[test]
fn basic() {
    let mut chain = MarkovChain::new(1);
    let actions = vec![
        UserAction::SignIn,
        UserAction::CreateTodo,
        UserAction::SignOut,
    ];
    chain.update(&actions);

    assert_eq!(
        chain.generate_from(&[UserAction::SignIn]).unwrap(),
        UserAction::CreateTodo
    );
    assert_eq!(
        chain.generate_from(&[UserAction::CreateTodo]).unwrap(),
        UserAction::SignOut
    );
}

#[test]
fn unseen_history_gives_none() {
    let mut chain = MarkovChain::new(1);
    chain.update(&[UserAction::SignIn, UserAction::CreateTodo, UserAction::SignOut]);
    assert_eq!(chain.generate_from(&[UserAction::SignOut]), None);
}

#[test]
fn branching_frequencies_follow_counts() {
    let mut chain = MarkovChain::new(1);
    chain.update(&[Ev::A, Ev::B, Ev::A, Ev::C, Ev::A, Ev::B]);
    let draws = 6000;
    let mut b = 0;
    let mut c = 0;
    for _ in 0..draws {
        match chain.generate_from(&[Ev::A]) {
            Some(Ev::B) => b += 1,
            Some(Ev::C) => c += 1,
            other => panic!("unexpected draw {:?}", other),
        }
    }
    let fb = b as f64 / draws as f64;
    let fc = c as f64 / draws as f64;
    assert!((fb - 2.0 / 3.0).abs() < 0.05, "frequency of B was {}", fb);
    assert!((fc - 1.0 / 3.0).abs() < 0.05, "frequency of C was {}", fc);
}

#[test]
fn short_training_learns_nothing() {
    let mut chain = MarkovChain::new(2);
    chain.update(&[Ev::A, Ev::B]);
    assert_eq!(chain.generate_from(&[Ev::A, Ev::B]), None);
    assert_eq!(chain.generate_from(&[Ev::A, Ev::A]), None);
    assert_eq!(chain.generate_from(&[Ev::B, Ev::A]), None);
    assert_eq!(chain.generate(true), None);
}

#[test]
fn empty_training_is_a_no_op() {
    let mut chain: MarkovChain<Ev> = MarkovChain::new(1);
    chain.update(&[]);
    assert_eq!(chain.generate_from(&[Ev::A]), None);
    assert!(!chain.has_full_memory());
}

#[test]
fn fresh_chain_generates_nothing() {
    let mut chain: MarkovChain<Ev> = MarkovChain::new(3);
    assert!(!chain.has_full_memory());
    assert_eq!(chain.generate_from(&[Ev::A, Ev::B, Ev::C]), None);
}

#[test]
fn counts_add_up_across_chunks_without_joining_them() {
    let mut chain = MarkovChain::new(1);
    chain.update(&[Ev::A, Ev::B]);
    chain.update(&[Ev::C, Ev::A]);
    assert_eq!(chain.generate_from(&[Ev::A]), Some(Ev::B));
    assert_eq!(chain.generate_from(&[Ev::C]), Some(Ev::A));
    // The window that would straddle the two chunks was never seen.
    assert_eq!(chain.generate_from(&[Ev::B]), None);
}

#[test]
fn generate_slides_the_memory_window() {
    let mut chain = MarkovChain::new(2);
    chain.update(&[Ev::A, Ev::B, Ev::C, Ev::A, Ev::B, Ev::C]);
    assert!(chain.has_full_memory());
    // memory is [B, C]; then [C, A]; then [A, B]; then [B, C] again
    assert_eq!(chain.generate(true), Some(Ev::A));
    assert_eq!(chain.generate(true), Some(Ev::B));
    assert_eq!(chain.generate(true), Some(Ev::C));
    assert_eq!(chain.generate(true), Some(Ev::A));
}

#[test]
fn drawn_event_becomes_the_newest_in_memory() {
    let mut chain = MarkovChain::new(2);
    chain.update(&[Ev::A, Ev::B, Ev::A, Ev::B, Ev::A]);
    // memory is [B, A] -> B; then [A, B] -> A; then [B, A] -> B
    assert_eq!(chain.generate(true), Some(Ev::B));
    assert_eq!(chain.generate(true), Some(Ev::A));
    assert_eq!(chain.generate(true), Some(Ev::B));
    assert!(chain.has_full_memory());
}

#[test]
fn peek_leaves_memory_alone() {
    let mut chain = MarkovChain::new(2);
    chain.update(&[Ev::A, Ev::B, Ev::C, Ev::A, Ev::B, Ev::C]);
    for _ in 0..5 {
        assert_eq!(chain.generate(false), Some(Ev::A));
    }
    assert_eq!(chain.generate(true), Some(Ev::A));
    assert_eq!(chain.generate(false), Some(Ev::B));
    assert_eq!(chain.generate(false), Some(Ev::B));
}

#[test]
fn generation_stops_at_an_unseen_history() {
    let mut chain = MarkovChain::new(1);
    chain.update(&[Ev::A, Ev::B, Ev::C]);
    chain.update(&[Ev::A]);
    // memory is [A]: A -> B -> C, and C was never followed
    assert_eq!(chain.generate(true), Some(Ev::B));
    assert_eq!(chain.generate(true), Some(Ev::C));
    assert_eq!(chain.generate(true), None);
    assert_eq!(chain.generate(true), None);
}

#[test]
fn short_update_keeps_memory() {
    let mut chain = MarkovChain::new(2);
    chain.update(&[Ev::A, Ev::B, Ev::C]);
    chain.update(&[Ev::A]);
    // memory stays [B, C], which was followed by nothing; [A, B] -> C
    assert_eq!(chain.generate(true), None);
    assert_eq!(chain.generate_from(&[Ev::A, Ev::B]), Some(Ev::C));
}

#[test]
fn iterator_yields_until_unseen_history() {
    let mut chain = MarkovChain::new(1);
    chain.update(&[Ev::C, Ev::A, Ev::B]);
    chain.update(&[Ev::C]);
    let mut it = chain.iter();
    assert_eq!(it.next(), Some(Ev::A));
    assert_eq!(it.next(), Some(Ev::B));
    assert_eq!(it.next(), None);
}

#[test]
fn clone_keeps_counts_and_memory() {
    let mut chain = MarkovChain::new(1);
    chain.update(&[Ev::A, Ev::B, Ev::C]);
    let mut copy = chain.clone();
    assert_eq!(copy.generate(true), None);
    assert_eq!(copy.generate_from(&[Ev::A]), Some(Ev::B));
    assert_eq!(copy.generate_from(&[Ev::B]), Some(Ev::C));
    chain.update(&[Ev::C, Ev::A]);
    assert_eq!(chain.generate_from(&[Ev::C]), Some(Ev::A));
    assert_eq!(copy.generate_from(&[Ev::C]), None);
}
