use pcn::Cube;
use pcn::CubeList;
use pcn::Literal;

#[test]
fn create_new_cube() {
    let cube = Cube::new(3);
    assert_eq!(cube.len(), 3);
    assert_eq!(cube.get_literal(1).unwrap(), Literal::Dontcare);
    assert_eq!(cube.get_literal(2).unwrap(), Literal::Dontcare);
    assert_eq!(cube.get_literal(3).unwrap(), Literal::Dontcare);
    assert_eq!(cube.get_literal(0).is_err(), true);
    assert_eq!(cube.get_literal(4).is_err(), true);
}

#[test]
fn set_variable() {
    let mut cube = Cube::new(3);
    cube.set_literal(2, Literal::Positive);
    assert_eq!(cube.get_literal(2).unwrap(), Literal::Positive);
}

#[test]
fn from_vector() {
    let cube = Cube::from(vec![0, -1, 1]);
    assert_eq!(cube.len(), 3);
    assert_eq!(cube.get_literal(1).unwrap(), Literal::Dontcare);
    assert_eq!(cube.get_literal(2).unwrap(), Literal::Negative);
    assert_eq!(cube.get_literal(3).unwrap(), Literal::Positive);
}

#[test]
fn cube_equal() {
    let mut cube_x = Cube::from(vec![1, 0, -1]);
    let cube_y = Cube::from(vec![1, 0, -1]);
    assert_eq!(cube_x, cube_y);
    cube_x.set_literal(2, Literal::Negative);
    assert_ne!(cube_x, cube_y);
}

#[test]
fn complement() {
    // Complement of 1 is 0 and so it returns an empty CubeList
    assert_eq!(Cube::new(3).complement().len(), 0);

    // Complement of a single variable
    let cube_x = Cube::from(vec![1, 0]);
    let cube_y = Cube::from(vec![-1, 0]);
    assert_eq!(cube_x.complement().len(), 1);
    assert_eq!(cube_x.complement().contains_cube(&cube_y), true);

    // Complement of a cube with multiple variables
    let cube_z = Cube::from(vec![1, 0, -1]);
    let cube_a = Cube::from(vec![-1, 0, 0]);
    let cube_b = Cube::from(vec![0, 0, 1]);
    println!("{:?}", cube_z.complement());
    assert_eq!(cube_z.complement().len(), 2);
    assert_eq!(cube_z.complement().contains_cube(&cube_a), true);
    assert_eq!(cube_z.complement().contains_cube(&cube_b), true);
}

#[test]
fn and() {
    // Normal AND of two Cubes
    let cube_x = Cube::from(vec![1, 0, 0]);
    let mut cube_y = Cube::from(vec![0, 0, -1]);
    let cube_z = Cube::from(vec![1, 0, -1]);
    assert_eq!(cube_x.and(&cube_y).unwrap(), cube_z);

    // AND of complementing literals
    cube_y.set_literal(3, Literal::Positive);
    assert_eq!(cube_z.and(&cube_y).is_none(), true);
}

#[test]
fn set_literal_out_of_range_is_ignored() {
    let mut cube = Cube::from(vec![1, -1]);
    let before = cube.clone();
    cube.set_literal(0, Literal::Positive);
    cube.set_literal(3, Literal::Positive);
    assert_eq!(cube, before);
}

#[test]
fn cube_and_commutative() {
    let cube_x = Cube::from(vec![1, 0, -1]);
    let cube_y = Cube::from(vec![0, 1, -1]);
    assert_eq!(cube_x.and(&cube_y).unwrap(), cube_y.and(&cube_x).unwrap());

    // A conflict is a conflict in both orders
    let cube_z = Cube::from(vec![-1, 0, 0]);
    assert!(cube_x.and(&cube_z).is_none());
    assert!(cube_z.and(&cube_x).is_none());
}

#[test]
fn cube_and_associative() {
    let cube_x = Cube::from(vec![1, 0, 0]);
    let cube_y = Cube::from(vec![0, -1, 0]);
    let cube_z = Cube::from(vec![0, 0, 1]);
    let left = cube_x.and(&cube_y).unwrap().and(&cube_z).unwrap();
    let right = cube_x.and(&cube_y.and(&cube_z).unwrap()).unwrap();
    assert_eq!(left, right);
    assert_eq!(left, Cube::from(vec![1, -1, 1]));
}

#[test]
fn cube_complement_round_trip() {
    // {c} AND complement(c) is the empty (false) family, and
    // {c} OR complement(c) is a tautology.
    let cube = Cube::from(vec![1, 0, -1]);
    let mut family = CubeList::new(3);
    family.add_cube(cube.clone());
    let comp = cube.complement();
    assert_eq!(family.and(&comp).len(), 0);
    assert_eq!(family.or(&comp).is_tautology(), true);
}
