use pcn::Cube;
use pcn::CubeList;

#[test]
fn cubelist_from_vec_vec_i32_and_contains_cube() {
    let cubelist = CubeList::from(vec![vec![1, 0, -1], vec![1, 1, 0], vec![0, 0, 1]]);
    assert_eq!(cubelist.len(), 3);
    assert_eq!(cubelist.contains_cube(&Cube::from(vec![1, 0, -1])), true);
    assert_eq!(cubelist.contains_cube(&Cube::from(vec![1, 1, 0])), true);
    assert_eq!(cubelist.contains_cube(&Cube::from(vec![0, 0, 1])), true);
}

#[test]
fn cofactor() {
    let cubelist = CubeList::from(vec![vec![1, -1, -1], vec![-1, 1, -1], vec![0, 1, 1]]);
    let (pos_cubelist, neg_cubelist) = cubelist.cofactor(1);
    assert_eq!(pos_cubelist.len(), 2);
    assert_eq!(
        pos_cubelist.contains_cube(&Cube::from(vec![0, -1, -1])),
        true
    );
    assert_eq!(pos_cubelist.contains_cube(&Cube::from(vec![0, 1, 1])), true);
    assert_eq!(neg_cubelist.len(), 2);
    assert_eq!(
        neg_cubelist.contains_cube(&Cube::from(vec![0, 1, -1])),
        true
    );
    assert_eq!(neg_cubelist.contains_cube(&Cube::from(vec![0, 1, 1])), true);
}

#[test]
fn is_tautology() {
    let mut cubelist1 = CubeList::from(vec![vec![0, 1, 1], vec![1, 0, 0]]);
    assert_eq!(cubelist1.is_tautology(), false);
    cubelist1.add_cube(Cube::from(vec![0, 0, 0]));
    assert_eq!(cubelist1.is_tautology(), true);

    let mut cubelist2 = CubeList::from(vec![vec![1, 0, 0]]);
    assert_eq!(cubelist2.is_tautology(), false);
    cubelist2.add_cube(Cube::from(vec![-1, 0, 0]));
    assert_eq!(cubelist2.is_tautology(), true);
}

#[test]
fn or_is_idempotent() {
    let cubelist = CubeList::from(vec![vec![1, 0], vec![0, -1]]);
    let joined = cubelist.or(&cubelist);
    assert_eq!(joined.len(), 2);
    assert_eq!(joined.contains_cube(&Cube::from(vec![1, 0])), true);
    assert_eq!(joined.contains_cube(&Cube::from(vec![0, -1])), true);
}

#[test]
fn or_is_a_superset_operation() {
    let left = CubeList::from(vec![vec![1, 0], vec![0, 1]]);
    let right = CubeList::from(vec![vec![0, 1], vec![-1, -1]]);
    let joined = left.or(&right);
    // Every cube of either operand is present, the shared one only once.
    assert_eq!(joined.len(), 3);
    assert_eq!(joined.contains_cube(&Cube::from(vec![1, 0])), true);
    assert_eq!(joined.contains_cube(&Cube::from(vec![0, 1])), true);
    assert_eq!(joined.contains_cube(&Cube::from(vec![-1, -1])), true);
}

#[test]
fn and_is_the_pairwise_product() {
    let left = CubeList::from(vec![vec![1, 0, 0], vec![-1, 0, 0]]);
    let right = CubeList::from(vec![vec![0, 1, 0], vec![0, 0, -1]]);
    let product = left.and(&right);
    assert_eq!(product.len(), 4);
    assert_eq!(product.contains_cube(&Cube::from(vec![1, 1, 0])), true);
    assert_eq!(product.contains_cube(&Cube::from(vec![1, 0, -1])), true);
    assert_eq!(product.contains_cube(&Cube::from(vec![-1, 1, 0])), true);
    assert_eq!(product.contains_cube(&Cube::from(vec![-1, 0, -1])), true);
}

#[test]
fn and_drops_conflicting_pairs() {
    let left = CubeList::from(vec![vec![1, 0]]);
    let right = CubeList::from(vec![vec![-1, 0], vec![0, 1]]);
    let product = left.and(&right);
    assert_eq!(product.len(), 1);
    assert_eq!(product.contains_cube(&Cube::from(vec![1, 1])), true);
}

#[test]
fn cofactor_ties_tautology_to_reconstruction() {
    // A tautology has two tautological cofactors on any variable.
    let taut = CubeList::from(vec![vec![1, 0], vec![-1, 0]]);
    assert_eq!(taut.is_tautology(), true);
    let (pos, neg) = taut.cofactor(1);
    assert_eq!(pos.is_tautology(), true);
    assert_eq!(neg.is_tautology(), true);

    // A non-tautology has some falsified cofactor.
    let partial = CubeList::from(vec![vec![1, 0]]);
    assert_eq!(partial.is_tautology(), false);
    let (pos, neg) = partial.cofactor(1);
    assert_eq!(pos.is_tautology(), true);
    assert_eq!(neg.is_tautology(), false);
}

#[test]
fn complement_of_zero_and_one() {
    // The zero function complements to the universal cube.
    let zero = CubeList::new(3);
    let one = zero.complement();
    assert_eq!(one.len(), 1);
    assert_eq!(one.contains_cube(&Cube::from(vec![0, 0, 0])), true);
    assert_eq!(one.is_tautology(), true);

    // A family holding the universal cube complements to the empty family.
    let back = one.complement();
    assert_eq!(back.len(), 0);
    assert_eq!(back.is_tautology(), false);
}

#[test]
fn complement_involution_keeps_the_function() {
    let cubelist = CubeList::from(vec![vec![1, 0, -1], vec![0, 1, 0]]);
    let comp = cubelist.complement();
    let twice = comp.complement();
    // The function and its double complement imply each other: each ORed
    // with the other's complement is a tautology.
    assert_eq!(twice.or(&comp).is_tautology(), true);
    assert_eq!(cubelist.or(&twice.complement()).is_tautology(), true);
    // And the complement really negates: both round trips are tautologies.
    assert_eq!(cubelist.or(&comp).is_tautology(), true);
}

#[test]
fn complement_of_two_cubes_negates_the_function() {
    let cubelist = CubeList::from(vec![vec![1, 0], vec![0, 1]]);
    let comp = cubelist.complement();
    // The complement of x1 + x2 is exactly x1'x2'.
    assert_eq!(comp.is_tautology(), false);
    assert_eq!(cubelist.or(&comp).is_tautology(), true);
    assert_eq!(cubelist.and(&comp).is_tautology(), false);
    assert_eq!(comp.contains_cube(&Cube::from(vec![-1, -1])), true);
}

#[test]
fn complement_of_single_cube_families() {
    let single = CubeList::from(vec![vec![1, 0]]);
    let comp = single.complement();
    assert_eq!(comp.len(), 1);
    assert_eq!(comp.contains_cube(&Cube::from(vec![-1, 0])), true);

    let wider = CubeList::from(vec![vec![1, 0, -1]]);
    let comp = wider.complement();
    assert_eq!(comp.len(), 2);
    assert_eq!(comp.contains_cube(&Cube::from(vec![-1, 0, 0])), true);
    assert_eq!(comp.contains_cube(&Cube::from(vec![0, 0, 1])), true);
}

#[test]
fn is_unate_detects_mixed_polarities() {
    let unate = CubeList::from(vec![vec![1, 0, -1], vec![1, -1, 0]]);
    assert_eq!(unate.is_unate(), true);
    let binate = CubeList::from(vec![vec![1, 0, -1], vec![-1, 0, 1]]);
    assert_eq!(binate.is_unate(), false);
}

#[test]
fn get_most_unate_var_prefers_the_biggest_balanced_split() {
    // Variables 1 and 2 are binate with equal combined counts and equal
    // balance, so the lowest variable number wins.
    let cubelist = CubeList::from(vec![vec![1, -1, 0], vec![-1, 1, 0]]);
    assert_eq!(cubelist.get_most_unate_var(), 1);

    // Variable 2 is binate; variable 1 is unate and never chosen here.
    let mixed = CubeList::from(vec![vec![1, 1, 0], vec![1, -1, 0]]);
    assert_eq!(mixed.get_most_unate_var(), 2);

    // In a unate family the most frequent variable wins.
    let unate = CubeList::from(vec![vec![1, 0], vec![1, -1]]);
    assert_eq!(unate.get_most_unate_var(), 1);

    // With no literal at all there is nothing to choose.
    let empty = CubeList::new(2);
    assert_eq!(empty.get_most_unate_var(), 0);
}

#[test]
fn tautology_of_empty_and_trivial_families() {
    // The zero function over any width is no tautology.
    assert_eq!(CubeList::new(0).is_tautology(), false);
    assert_eq!(CubeList::new(4).is_tautology(), false);

    // A single all-don't-care cube is the one function.
    let mut one = CubeList::new(4);
    one.add_cube(Cube::new(4));
    assert_eq!(one.is_tautology(), true);
}
