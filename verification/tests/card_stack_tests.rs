use adventure_island::CardStack;

#[test]
fn new() {
    // Create a card stack and check, that the draw stack is not shuffled
    // and the discard-stack is empty
    let mut stack = CardStack::new((0..20_u8).collect());

    for i in 20..0 {
        assert_eq!(i, stack.draw_card().unwrap());
    }
    assert_eq!(0, stack.discard_stack_size());
}

#[test]
fn draw_card() {
    let mut stack = CardStack::new(vec![1]);
    assert_eq!(Some(1), stack.draw_card());
    assert_eq!(None, stack.draw_card());
}

#[test]
fn discard_card() {
    let mut stack = CardStack::new(vec![1, 2]);
    let card = stack.draw_card().unwrap();
    stack.discard_card(card);
    let card = stack.draw_card().unwrap();
    stack.discard_card(card);

    assert_eq!(&vec![2, 1], stack.discard_stack());
}

#[test]
fn shuffle_keeps_the_cards() {
    let mut stack = CardStack::new((0..10_u8).collect());
    stack.shuffle();
    assert_eq!(10, stack.draw_stack_size());
    let mut drawn = Vec::new();
    while let Some(card) = stack.draw_card() {
        drawn.push(card);
    }
    drawn.sort();
    assert_eq!((0..10_u8).collect::<Vec<u8>>(), drawn);
}

#[test]
fn shuffle_back_stacks_discards_on_top() {
    let mut stack = CardStack::new(vec![1, 2]);
    stack.discard_card(5);
    stack.discard_card(6);
    stack.shuffle_back();
    assert_eq!(0, stack.discard_stack_size());
    assert_eq!(4, stack.draw_stack_size());
    assert_eq!(4, stack.size());
    // the two discarded cards come off the top, in some order
    let mut top = vec![stack.draw_card().unwrap(), stack.draw_card().unwrap()];
    top.sort();
    assert_eq!(vec![5, 6], top);
    // the untouched draw stack keeps its order underneath
    assert_eq!(Some(2), stack.draw_card());
    assert_eq!(Some(1), stack.draw_card());
}
