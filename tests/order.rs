use ducky::{sort_for_presentation, DuplicateGroup};

fn p(s: &str) -> Vec<u8> {
    s.as_bytes().to_vec()
}

#[test]
fn json_determinism_and_order() {
    let g1 = DuplicateGroup::new(10, vec!["/b".into(), "/c".into()]); // reclaimable 10
    let g2 = DuplicateGroup::new(5, vec!["/a".into(), "/b".into(), "/c".into()]); // reclaimable 10
    // same reclaimable -> size desc then first member
    let gs = sort_for_presentation(vec![g2.clone(), g1.clone()]);
    assert_eq!(gs[0].size, 10);
    assert_eq!(gs[1].size, 5);
}

#[test]
fn presentation_puts_most_reclaimable_first() {
    let small = DuplicateGroup::new(10, vec![p("/a"), p("/b")]);
    let big = DuplicateGroup::new(4, vec![p("/c"), p("/d"), p("/e"), p("/f")]);
    let gs = sort_for_presentation(vec![small, big]);
    assert_eq!(gs[0].size, 4);
    assert_eq!(gs[1].size, 10);
}

#[test]
fn presentation_breaks_ties_by_canonical_path() {
    let a = DuplicateGroup::new(8, vec![p("/m"), p("/n")]);
    let b = DuplicateGroup::new(8, vec![p("/k"), p("/z")]);
    let gs = sort_for_presentation(vec![a, b]);
    assert_eq!(gs[0].members[0], p("/k"));
    assert_eq!(gs[1].members[0], p("/m"));
}

#[test]
fn presentation_is_independent_of_input_order() {
    let make = || {
        vec![
            DuplicateGroup::new(8, vec![p("/m"), p("/n")]),
            DuplicateGroup::new(3, vec![p("/a"), p("/b"), p("/c")]),
            DuplicateGroup::new(8, vec![p("/k"), p("/z")]),
            DuplicateGroup::new(100, vec![p("/q"), p("/r")]),
        ]
    };
    let forward = sort_for_presentation(make());
    let mut reversed_input = make();
    reversed_input.reverse();
    let backward = sort_for_presentation(reversed_input);
    let firsts = |gs: &Vec<DuplicateGroup>| gs.iter().map(|g| g.members[0].clone()).collect::<Vec<_>>();
    assert_eq!(firsts(&forward), firsts(&backward));
    assert_eq!(firsts(&forward), vec![p("/q"), p("/k"), p("/m"), p("/a")]);
}

#[test]
fn presentation_of_nothing_is_empty() {
    assert!(sort_for_presentation(Vec::new()).is_empty());
}
