use euclider::util::{join_tokens, remainder, IterLazy, Provider, RemoveIf, Token};
use std::collections::HashSet;

#[test]
fn remainder_test() {
    assert_eq!(remainder(-3, 3), 0);
    assert_eq!(remainder(-2, 3), 1);
    assert_eq!(remainder(-1, 3), 2);
    assert_eq!(remainder(0, 3), 0);
    assert_eq!(remainder(1, 3), 1);
    assert_eq!(remainder(2, 3), 2);
    assert_eq!(remainder(3, 3), 0);
}

#[test]
fn remainder_wraps_larger_negatives() {
    assert_eq!(remainder(-7, 3), 2);
    assert_eq!(remainder(-9, 3), 0);
    assert_eq!(remainder(10, 4), 2);
    assert_eq!(remainder(-10, 4), 2);
}

#[test]
fn iter_lazy() {
    let vec: Vec<Box<dyn Fn() -> Option<f32>>> = vec![
        Box::new(|| Some(42.0)),
        Box::new(|| None),
        Box::new(|| Some(84.0)),
    ];
    let mut iter = IterLazy::new(vec);

    assert_eq!(iter.next(), Some(42.0));
    assert_eq!(iter.next(), None);
    assert_eq!(iter.next(), Some(84.0));
    assert_eq!(iter.next(), None);
}

#[test]
fn iter_lazy_calls_only_when_asked() {
    let calls = std::cell::Cell::new(0u32);
    let closures: Vec<Box<dyn Fn() -> Option<u32> + '_>> = vec![
        Box::new(|| {
            calls.set(calls.get() + 1);
            Some(1)
        }),
        Box::new(|| {
            calls.set(calls.get() + 1);
            Some(2)
        }),
    ];
    let mut iter = IterLazy::new(closures);
    assert_eq!(calls.get(), 0);
    assert_eq!(iter.next(), Some(1));
    assert_eq!(calls.get(), 1);
    assert_eq!(iter.next(), Some(2));
    assert_eq!(calls.get(), 2);
    assert_eq!(iter.next(), None);
    assert_eq!(calls.get(), 2);
}

#[test]
fn remove_surrounding_brackets() {
    let tokens = vec![
        Token::Open,
        Token::Other("Hello".to_string()),
        Token::Open,
        Token::Other("World".to_string()),
        Token::DoubleClose,
    ];
    let trimmed = euclider::util::remove_surrounding_brackets(&tokens).unwrap();
    assert_eq!(join_tokens(&trimmed), "Hello < World >");
}

#[test]
fn remove_surrounding_brackets_refuses_unbracketed_input() {
    let tokens = vec![Token::Other("Hello".to_string()), Token::Close];
    assert!(euclider::util::remove_surrounding_brackets(&tokens).is_none());
    let unclosed = vec![Token::Open, Token::Other("Hello".to_string()), Token::Open];
    assert!(euclider::util::remove_surrounding_brackets(&unclosed).is_none());
    let early = vec![
        Token::Open,
        Token::Other("A".to_string()),
        Token::Close,
        Token::Other("B".to_string()),
    ];
    assert!(euclider::util::remove_surrounding_brackets(&early).is_none());
}

#[test]
fn remove_surrounding_brackets_splits_double_close() {
    // `<Vec<Box<T>>>` as the lexer gives it: the last two brackets come as `>>` and `>`.
    let tokens = vec![
        Token::Open,
        Token::Other("Vec".to_string()),
        Token::Open,
        Token::Other("Box".to_string()),
        Token::Open,
        Token::Other("T".to_string()),
        Token::DoubleClose,
        Token::Close,
    ];
    let trimmed = euclider::util::remove_surrounding_brackets(&tokens).unwrap();
    assert_eq!(join_tokens(&trimmed), "Vec < Box < T > >");
}

#[test]
fn token_texts() {
    assert_eq!(Token::Open.text(), "<");
    assert_eq!(Token::DoubleClose.text(), ">>");
    assert_eq!(Token::Other("x".to_string()).text(), "x");
    assert_eq!(join_tokens(&vec![]), "");
}

#[test]
fn provider_remembers_and_pads_with_none() {
    let mut provider = Provider::new(vec![10u32, 20, 30].into_iter());
    assert_eq!(provider.get(1), Some(20));
    assert_eq!(provider.get(0), Some(10));
    assert_eq!(provider.get(4), None);
    assert_eq!(provider.get(2), Some(30));
    assert_eq!(provider.get(3), None);
    assert_eq!(provider.get(1), Some(20));
    assert_eq!(provider.get(4), None);
}

#[test]
fn provider_keeps_what_is_written_in_place() {
    let mut provider = Provider::new(vec![10u32, 20, 30].into_iter());
    *provider.get_mut(1) = Some(21);
    assert_eq!(provider.get(0), Some(10));
    assert_eq!(provider.get(1), Some(21));
    assert_eq!(provider.get(2), Some(30));
    if let Some(x) = provider.get_mut(2) {
        *x += 1;
    }
    assert_eq!(provider.get(2), Some(31));
    assert_eq!(*provider.get_mut(5), None);
    assert_eq!(provider.get(1), Some(21));
}

#[test]
fn marcher_walks_from_the_start() {
    let mut provider = Provider::new(vec![1u8, 2].into_iter());
    let mut marcher = provider.iter();
    assert_eq!(marcher.next(), Some(1));
    assert_eq!(marcher.next(), Some(2));
    assert_eq!(marcher.next(), None);
    let mut again = provider.iter();
    assert_eq!(again.next(), Some(1));
}

#[test]
fn walking_again_asks_the_source_nothing() {
    let pulls = std::cell::Cell::new(0u32);
    let source = vec![4u8, 5, 6].into_iter().inspect(|_| pulls.set(pulls.get() + 1));
    let mut provider = Provider::new(source);
    assert_eq!(pulls.get(), 0);
    assert_eq!(provider.get(1), Some(5));
    assert_eq!(pulls.get(), 2);
    let mut first = provider.iter();
    assert_eq!(first.next(), Some(4));
    assert_eq!(first.next(), Some(5));
    assert_eq!(first.next(), Some(6));
    assert_eq!(first.next(), None);
    assert_eq!(pulls.get(), 3);
    let mut again = provider.iter();
    assert_eq!(again.next(), Some(4));
    assert_eq!(again.next(), Some(5));
    assert_eq!(again.next(), Some(6));
    assert_eq!(pulls.get(), 3);
}

#[test]
fn marcher_changes_are_kept() {
    let mut provider = Provider::new(vec![1u8, 2, 3].into_iter());
    let mut marcher = provider.iter();
    while let Some(x) = marcher.next_mut() {
        *x *= 10;
    }
    let mut again = provider.iter();
    assert_eq!(again.next(), Some(10));
    assert_eq!(again.next(), Some(20));
    assert_eq!(again.next(), Some(30));
    assert_eq!(again.next(), None);
}

#[test]
fn remove_if() {
    let mut items: HashSet<u8> = HashSet::new();

    items.insert(0);
    items.insert(1);
    items.insert(2);
    items.insert(3);

    let result = items.remove_if(|val| val % 2 == 0);

    let mut retained: HashSet<u8> = HashSet::new();

    retained.insert(1);
    retained.insert(3);

    let mut removed: HashSet<u8> = HashSet::new();

    removed.insert(0);
    removed.insert(2);

    assert_eq!(items, retained);
    assert_eq!(result, removed);
}

#[test]
fn remove_if_nothing_or_everything() {
    let mut set: HashSet<u32> = [5, 6, 7].into_iter().collect();
    let none = set.remove_if(|_| false);
    assert!(none.is_empty());
    assert_eq!(set.len(), 3);
    let all = set.remove_if(|_| true);
    assert_eq!(all.len(), 3);
    assert!(set.is_empty());
}
