use spiking_network::cdl::barriera;

#[test]
fn new_enables_first_layer() {
    let mut b = barriera::new(3, vec![2, 1, 2]);
    assert_eq!(b.pending(), 2);
    assert!(b.try_pass(0));
    assert!(b.try_pass(1));
    assert!(!b.try_pass(2));
    assert!(!b.try_pass(3));
    assert!(!b.try_pass(4));
}

#[test]
fn new_uses_only_the_first_capacity_sizes() {
    let mut b = barriera::new(2, vec![1, 1, 7]);
    assert_eq!(b.pending(), 1);
    assert!(b.try_pass(0));
    assert!(!b.try_pass(1));
}

#[test]
fn pass_is_used_up() {
    let mut b = barriera::new(1, vec![1]);
    assert!(b.try_pass(0));
    assert!(!b.try_pass(0));
}

#[test]
fn attiva_livello_enables_its_layer_only() {
    let mut b = barriera::new(3, vec![2, 1, 2]);
    b.attivaLivello(2);
    assert!(!b.try_pass(2));
    assert!(b.try_pass(3));
    assert!(b.try_pass(4));
    assert!(b.try_pass(0));
}

#[test]
fn completed_first_layer_hands_over_to_the_second() {
    let mut b = barriera::new(3, vec![2, 1, 2]);
    assert!(b.try_pass(0));
    assert!(b.try_pass(1));
    b.count_down(1, false);
    assert_eq!(b.pending(), 1);
    assert!(!b.try_pass(2));
    b.count_down(1, false);
    assert_eq!(b.pending(), 1);
    assert!(b.try_pass(2));
    assert!(!b.try_pass(0));
}

#[test]
fn layer_one_hands_back_unless_last_round() {
    let mut b = barriera::new(3, vec![2, 1, 2]);
    b.count_down(1, false);
    b.count_down(1, false);
    assert!(b.try_pass(2));
    b.count_down(2, false);
    assert_eq!(b.pending(), 4);
    assert!(b.try_pass(0));
    assert!(b.try_pass(1));
    assert!(b.try_pass(3));
    assert!(b.try_pass(4));
    assert!(!b.try_pass(2));
}

#[test]
fn layer_one_last_round_hands_over_forward_only() {
    let mut b = barriera::new(3, vec![1, 1, 1]);
    assert!(b.try_pass(0));
    b.count_down(1, false);
    assert!(b.try_pass(1));
    b.count_down(2, true);
    assert_eq!(b.pending(), 1);
    assert!(b.try_pass(2));
    assert!(!b.try_pass(0));
}

#[test]
fn last_layer_hands_over_to_nothing() {
    let mut b = barriera::new(4, vec![1, 1, 1, 1]);
    assert!(b.try_pass(0));
    b.count_down(1, false);
    assert!(b.try_pass(1));
    b.count_down(2, true);
    assert!(b.try_pass(2));
    b.count_down(3, true);
    assert_eq!(b.pending(), 1);
    assert!(b.try_pass(3));
    b.count_down(4, true);
    assert_eq!(b.pending(), 0);
    assert!(!b.try_pass(0));
    assert!(!b.try_pass(3));
}
