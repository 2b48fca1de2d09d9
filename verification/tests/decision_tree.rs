use ai_lmao::decision_tree::Comparator;
use ai_lmao::decision_tree::DTreeNode;
use ai_lmao::decision_tree::DTreeSplit;
use ai_lmao::decision_tree::Extractor;
use ai_lmao::decision_tree::SplitNode;

struct Fruit {
    weight: u32,
    sweetness: u32,
}

fn weight(fruit: &Fruit) -> &u32 {
    &fruit.weight
}

fn sweetness(fruit: &Fruit) -> &u32 {
    &fruit.sweetness
}

fn at_least(value: &u32, feature: &u32) -> bool {
    feature >= value
}

fn tree() -> DTreeNode<Fruit, &'static str> {
    let sweet = DTreeSplit {
        extractor: Extractor { name: "sweetness", extract: sweetness },
        comparator: Comparator { name: "at least", compare: at_least },
        value: 5,
        left: DTreeNode::Leaf("grapefruit"),
        right: DTreeNode::Leaf("melon"),
    };
    let heavy = DTreeSplit {
        extractor: Extractor { name: "weight", extract: weight },
        comparator: Comparator { name: "at least", compare: at_least },
        value: 300,
        left: DTreeNode::Leaf("plum"),
        right: DTreeNode::Split(Box::new(sweet)),
    };
    DTreeNode::Split(Box::new(heavy))
}

#[test]
fn a_leaf_resolves_to_its_label() {
    let leaf: DTreeNode<Fruit, &'static str> = DTreeNode::Leaf("plum");
    assert_eq!(*leaf.resolve(&Fruit { weight: 1, sweetness: 1 }), "plum");
}

#[test]
fn a_split_goes_left_when_the_comparison_fails() {
    assert_eq!(*tree().resolve(&Fruit { weight: 299, sweetness: 9 }), "plum");
}

#[test]
fn a_split_goes_right_when_the_comparison_holds() {
    assert_eq!(*tree().resolve(&Fruit { weight: 300, sweetness: 5 }), "melon");
}

#[test]
fn nested_splits_are_resolved_in_turn() {
    assert_eq!(*tree().resolve(&Fruit { weight: 900, sweetness: 4 }), "grapefruit");
}

#[test]
fn extractors_and_comparators_keep_their_names() {
    let split = DTreeSplit {
        extractor: Extractor { name: "weight", extract: weight },
        comparator: Comparator { name: "at least", compare: at_least },
        value: 300,
        left: DTreeNode::<Fruit, &'static str>::Leaf("plum"),
        right: DTreeNode::Leaf("melon"),
    };
    assert_eq!(split.extractor.name, "weight");
    assert_eq!(split.comparator.name, "at least");
    assert_eq!(*split.resolve(&Fruit { weight: 300, sweetness: 0 }), "melon");
}
