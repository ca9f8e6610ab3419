use pirates::append::Append;
use pirates::flipped::FlippedPiratesTree;
use pirates::normal::NormalPiratesTree;
use pirates::pirate::Pirate;
use pirates::pirates_tree::PiratesTree;

#[test]
fn from_char_parses_both_symbols() {
    assert_eq!(Pirate::from_char('1'), Some(Pirate::Bucaneer));
    assert_eq!(Pirate::from_char('0'), Some(Pirate::Barbary));
}

#[test]
fn from_char_rejects_other_symbols() {
    assert_eq!(Pirate::from_char('2'), None);
    assert_eq!(Pirate::from_char('x'), None);
    assert_eq!(Pirate::from_char(' '), None);
}

#[test]
fn complement_swaps_the_two_pirates() {
    assert_eq!(Pirate::Barbary.complement(), Pirate::Bucaneer);
    assert_eq!(Pirate::Bucaneer.complement(), Pirate::Barbary);
    assert_eq!(Pirate::Barbary.complement().complement(), Pirate::Barbary);
}

#[test]
fn to_char_round_trips_with_from_char() {
    assert_eq!(Pirate::Barbary.to_char(), '0');
    assert_eq!(Pirate::Bucaneer.to_char(), '1');
    assert_eq!(Pirate::from_char(Pirate::Bucaneer.to_char()), Some(Pirate::Bucaneer));
    assert_eq!(Pirate::from_char(Pirate::Barbary.to_char()), Some(Pirate::Barbary));
}

#[test]
fn append_adds_counts_and_joins_trees() {
    assert_eq!(2usize.append(3), 5);
    let t = PiratesTree::from_string("01").append(PiratesTree::from_string("11"));
    assert_eq!(t.len(), 4);
    assert_eq!(t.num_bucaneers(), 3);
    assert_eq!(t.count_bucaneers(0, 1), 1);
}

#[test]
fn from_string_counts() {
    let t = PiratesTree::from_string("0101");
    assert_eq!(t.len(), 4);
    assert_eq!(t.num_bucaneers(), 2);
}

#[test]
fn single_symbol_runs() {
    let zero = PiratesTree::from_string("0");
    assert_eq!(zero.len(), 1);
    assert_eq!(zero.num_bucaneers(), 0);
    let one = PiratesTree::from_string("1");
    assert_eq!(one.len(), 1);
    assert_eq!(one.num_bucaneers(), 1);
}

#[test]
fn join_concatenates() {
    let t = PiratesTree::join(PiratesTree::from_string("00"), PiratesTree::from_string("11"));
    assert_eq!(t.len(), 4);
    assert_eq!(t.num_bucaneers(), 2);
    assert_eq!(t.count_bucaneers(0, 3), 2);
}

#[test]
fn replicate_counts_each_tested_repetition() {
    for n in [1usize, 2, 3, 7, 1024] {
        let t = PiratesTree::from_string("1").replicate(n);
        assert_eq!(t.len(), n);
        assert_eq!(t.num_bucaneers(), n);
    }
}

#[test]
fn replicate_of_run_keeps_aligned_copies() {
    let t = PiratesTree::from_string("01").replicate(3);
    assert_eq!(t.len(), 6);
    assert_eq!(t.num_bucaneers(), 3);
    assert_eq!(t.count_bucaneers(0, 1), 1);
    assert_eq!(t.count_bucaneers(2, 3), 1);
    assert_eq!(t.count_bucaneers(4, 5), 1);
}

#[test]
fn from_sections_joins_in_order() {
    let sections = vec![
        PiratesTree::from_string("1"),
        PiratesTree::from_string("0"),
        PiratesTree::from_string("1"),
    ];
    let t = PiratesTree::from_sections(sections);
    assert_eq!(t.len(), 3);
    assert_eq!(t.num_bucaneers(), 2);
    assert_eq!(t.count_bucaneers(0, 0), 1);
    assert_eq!(t.count_bucaneers(1, 2), 1);
}

#[test]
fn set_is_persistent() {
    let t1 = PiratesTree::from_string("0101");
    let t2 = t1.set(0, 1, Pirate::Bucaneer);
    assert_eq!(t1.count_bucaneers(0, 1), 1);
    assert_eq!(t1.count_bucaneers(0, 3), 2);
    assert_eq!(t2.count_bucaneers(0, 1), 2);
    assert_eq!(t2.count_bucaneers(0, 3), 3);
}

#[test]
fn toggle_twice_restores_every_subrange() {
    let t = PiratesTree::from_string("0110");
    let once = t.toggle(0, 1);
    let twice = once.toggle(0, 1);
    for (lo, hi) in [(0, 0), (1, 1), (2, 2), (3, 3), (0, 1), (2, 3), (0, 3)] {
        assert_eq!(twice.count_bucaneers(lo, hi), t.count_bucaneers(lo, hi));
    }
    assert_eq!(once.count_bucaneers(0, 1), 1);
}

#[test]
fn double_flip_counts_like_the_original() {
    let t = PiratesTree::from_string("0101");
    let once = t.flipped();
    let twice = once.flipped();
    assert_eq!(once.len(), 4);
    assert_eq!(once.num_bucaneers(), 2);
    assert_eq!(twice.len(), t.len());
    assert_eq!(twice.num_bucaneers(), t.num_bucaneers());
    assert_eq!(twice.count_bucaneers(0, 1), t.count_bucaneers(0, 1));
}

#[test]
fn flip_complements_counts() {
    let t = PiratesTree::from_string("0001");
    let f = t.flipped();
    assert_eq!(f.len(), 4);
    assert_eq!(f.num_bucaneers(), 3);
    assert_eq!(f.count_bucaneers(0, 1), 2);
    assert_eq!(f.count_bucaneers(3, 3), 0);
}

#[test]
fn end_to_end_scenario() {
    let run = PiratesTree::from_string("01");
    let replicated = run.replicate(2);
    let tree = PiratesTree::from_sections(vec![replicated]);
    assert_eq!(tree.len(), 4);
    assert_eq!(tree.num_bucaneers(), 2);
    let assigned = tree.set(0, 1, Pirate::Bucaneer);
    assert_eq!(assigned.count_bucaneers(0, 3), 3);
    let toggled = assigned.toggle(0, 3);
    assert_eq!(toggled.count_bucaneers(0, 3), 1);
    assert_eq!(toggled.count_bucaneers(2, 3), 1);
    assert_eq!(toggled.count_bucaneers(0, 1), 0);
    assert_eq!(toggled.count_bucaneers(2, 2), 1);
    assert_eq!(toggled.count_bucaneers(3, 3), 0);
}

#[test]
fn count_over_exact_left_half_of_joined_runs() {
    let left = PiratesTree::from_string("00");
    let right = PiratesTree::from_string("11");
    let t = PiratesTree::join(left, right);
    assert_eq!(t.count_bucaneers(0, 1), 0);
    assert_eq!(t.count_bucaneers(2, 3), 2);
}

#[test]
fn toggle_single_pirate() {
    let t = PiratesTree::from_string("0");
    let r = t.toggle(0, 0);
    assert_eq!(r.num_bucaneers(), 1);
    assert_eq!(t.num_bucaneers(), 0);
}

#[test]
fn set_whole_tree_to_barbaries() {
    let t = PiratesTree::from_string("1111");
    let r = t.set(0, 3, Pirate::Barbary);
    assert_eq!(r.num_bucaneers(), 0);
    assert_eq!(t.num_bucaneers(), 4);
}

#[test]
fn normal_and_flipped_views_agree_on_a_leaf() {
    let leaf = NormalPiratesTree::SinglePirate(Pirate::Bucaneer);
    assert_eq!(leaf.len(), 1);
    assert_eq!(leaf.num_bucaneers(), 1);
    assert!(leaf.unpack().is_none());
    let view = FlippedPiratesTree::flip(leaf.clone());
    assert_eq!(view.len(), 1);
    assert_eq!(view.num_bucaneers(), 0);
    assert!(view.unpack().is_none());
    let back = view.flipped();
    assert_eq!(back.num_bucaneers(), 1);
    let complemented = leaf.flipped();
    assert_eq!(complemented.len(), 1);
    assert_eq!(complemented.num_bucaneers(), 0);
}

#[test]
fn toggle_then_count_on_flipped_handle() {
    let t = PiratesTree::from_string("0011").flipped();
    assert_eq!(t.count_bucaneers(0, 1), 2);
    let r = t.toggle(0, 1);
    assert_eq!(r.count_bucaneers(0, 1), 0);
    assert_eq!(r.count_bucaneers(2, 3), 0);
}
