use molecule_core::{Atom, BondOrder, Decimal, Element, Molecule};

fn units(v: i64) -> Decimal {
    Decimal { negative: v < 0, magnitude: v.unsigned_abs() * 10_000 }
}

fn atom_at(id: usize, residue_id: usize, ins_code: char, chain_id: char, x: i64, y: i64, z: i64) -> Atom {
    Atom {
        id,
        name: String::from("CA"),
        element: Element::C,
        position: [units(x), units(y), units(z)],
        residue_id,
        chain_id,
        b_factor: Decimal::zero(),
        occupancy: Decimal::one(),
        residue_name: String::from("ALA"),
        alt_loc: ' ',
        ins_code,
        is_hetatm: false,
    }
}

fn atom(id: usize, residue_id: usize, ins_code: char, chain_id: char) -> Atom {
    atom_at(id, residue_id, ins_code, chain_id, 0, 0, 0)
}

#[test]
fn new_molecule_is_empty() {
    let m = Molecule::new();
    assert!(m.atoms.is_empty());
    assert!(m.bonds.is_empty());
    assert!(m.residues.is_empty());
    assert!(m.chains.is_empty());
    assert!(m.models.is_empty());
    assert_eq!(m.current_model, None);
}

#[test]
fn add_atom_returns_the_serial_number_and_keeps_the_order() {
    let mut m = Molecule::new();
    assert_eq!(m.add_atom(atom(7, 1, ' ', 'A')), 7);
    assert_eq!(m.add_atom(atom(3, 1, ' ', 'A')), 3);
    assert_eq!(m.add_atom(atom(7, 2, ' ', 'A')), 7);
    let ids: Vec<usize> = m.atoms.iter().map(|a| a.id).collect();
    assert_eq!(ids, vec![7, 3, 7]);
}

#[test]
fn add_atom_groups_by_sequence_number_and_insertion_code() {
    let mut m = Molecule::new();
    m.add_atom(atom(1, 10, ' ', 'A'));
    m.add_atom(atom(2, 10, 'A', 'A'));
    m.add_atom(atom(3, 10, ' ', 'A'));
    m.add_atom(atom(4, 11, ' ', 'A'));
    assert_eq!(m.residues.len(), 3);
    assert_eq!((m.residues[0].id, m.residues[0].ins_code), (10, ' '));
    assert_eq!(m.residues[0].atoms, vec![1, 3]);
    assert_eq!((m.residues[1].id, m.residues[1].ins_code), (10, 'A'));
    assert_eq!(m.residues[1].atoms, vec![2]);
    assert_eq!((m.residues[2].id, m.residues[2].ins_code), (11, ' '));
    assert_eq!(m.residues[2].atoms, vec![4]);
}

#[test]
fn residues_are_shared_across_chains() {
    let mut m = Molecule::new();
    m.add_atom(atom(1, 5, ' ', 'A'));
    m.add_atom(atom(2, 5, ' ', 'B'));
    assert_eq!(m.residues.len(), 1);
    assert_eq!(m.residues[0].atoms, vec![1, 2]);
    assert_eq!(m.chains.len(), 2);
    assert_eq!(m.chains[0].id, 'A');
    assert_eq!(m.chains[0].residues, vec![5]);
    assert_eq!(m.chains[1].id, 'B');
    assert_eq!(m.chains[1].residues, vec![5]);
    assert_eq!(m.chain('A').unwrap().residues, vec![5]);
    assert_eq!(m.chain('B').unwrap().residues, vec![5]);
    assert!(m.chain('C').is_none());
}

#[test]
fn residue_name_is_that_of_the_first_atom() {
    let mut m = Molecule::new();
    let mut first = atom(1, 5, ' ', 'A');
    first.residue_name = String::from("GLY");
    let mut second = atom(2, 5, ' ', 'A');
    second.residue_name = String::from("TRP");
    m.add_atom(first);
    m.add_atom(second);
    assert_eq!(m.residues.len(), 1);
    assert_eq!(m.residues[0].name, "GLY");
    assert_eq!(m.atoms[1].residue_name, "TRP");
    assert_eq!(m.residue(5, ' ').unwrap().name, "GLY");
    assert!(m.residue(5, 'A').is_none());
    assert!(m.residue(6, ' ').is_none());
}

#[test]
fn chains_list_each_residue_once_in_first_seen_order() {
    let mut m = Molecule::new();
    m.add_atom(atom(1, 3, ' ', 'A'));
    m.add_atom(atom(2, 1, ' ', 'A'));
    m.add_atom(atom(3, 3, ' ', 'A'));
    m.add_atom(atom(4, 3, 'B', 'A'));
    m.add_atom(atom(5, 2, ' ', 'A'));
    m.add_atom(atom(6, 1, ' ', 'A'));
    assert_eq!(m.chains.len(), 1);
    assert_eq!(m.chains[0].residues, vec![3, 1, 2]);
    assert_eq!(m.find_chain('A'), 0);
    assert_eq!(m.find_chain('Z'), 1);
    assert_eq!(m.find_residue(3, 'B'), 2);
    assert_eq!(m.find_residue(9, ' '), 4);
}

#[test]
fn atoms_join_the_open_model_only() {
    let mut m = Molecule::new();
    m.add_atom(atom(1, 1, ' ', 'A'));
    m.start_model(1);
    m.add_atom(atom(2, 1, ' ', 'A'));
    m.add_atom(atom(3, 1, ' ', 'A'));
    m.end_model();
    m.add_atom(atom(4, 1, ' ', 'A'));
    m.start_model(2);
    m.add_atom(atom(5, 1, ' ', 'A'));
    assert_eq!(m.atoms.len(), 5);
    assert_eq!(m.models.len(), 2);
    assert_eq!(m.models[0].id, 1);
    assert_eq!(m.models[0].atoms, vec![2, 3]);
    assert_eq!(m.models[1].id, 2);
    assert_eq!(m.models[1].atoms, vec![5]);
    assert_eq!(m.current_model, Some(1));
}

#[test]
fn the_open_model_is_the_one_opened_last_whatever_its_serial_number() {
    let mut m = Molecule::new();
    m.start_model(5);
    m.add_atom(atom(1, 1, ' ', 'A'));
    m.start_model(0);
    m.add_atom(atom(2, 1, ' ', 'A'));
    m.start_model(5);
    m.add_atom(atom(3, 1, ' ', 'A'));
    assert_eq!(m.models.len(), 3);
    assert_eq!(m.models[0].id, 5);
    assert_eq!(m.models[0].atoms, vec![1]);
    assert_eq!(m.models[1].id, 0);
    assert_eq!(m.models[1].atoms, vec![2]);
    assert_eq!(m.models[2].id, 5);
    assert_eq!(m.models[2].atoms, vec![3]);
}

#[test]
fn end_model_without_an_open_model_changes_nothing() {
    let mut m = Molecule::new();
    m.end_model();
    assert_eq!(m.current_model, None);
    assert!(m.models.is_empty());
    m.start_model(1);
    m.end_model();
    m.end_model();
    assert_eq!(m.current_model, None);
    assert_eq!(m.models.len(), 1);
}

#[test]
fn add_bond_checks_nothing() {
    let mut m = Molecule::new();
    m.add_bond(1, 2, BondOrder::Single);
    m.add_bond(1, 2, BondOrder::Single);
    m.add_bond(3, 3, BondOrder::Aromatic);
    m.add_bond(2, 1, BondOrder::Triple);
    assert_eq!(m.bonds.len(), 4);
    assert_eq!((m.bonds[0].atom1_id, m.bonds[0].atom2_id, m.bonds[0].order), (1, 2, BondOrder::Single));
    assert_eq!(m.bonds[1], m.bonds[0]);
    assert_eq!((m.bonds[2].atom1_id, m.bonds[2].atom2_id, m.bonds[2].order), (3, 3, BondOrder::Aromatic));
    assert_eq!((m.bonds[3].atom1_id, m.bonds[3].atom2_id, m.bonds[3].order), (2, 1, BondOrder::Triple));
    assert!(m.atoms.is_empty());
}

#[test]
fn calculate_bonds_joins_atoms_less_than_two_units_apart() {
    let mut m = Molecule::new();
    m.add_atom(atom_at(1, 1, ' ', 'A', 0, 0, 0));
    m.add_atom(atom_at(2, 1, ' ', 'A', 1000, 0, 0));
    m.calculate_bonds();
    assert_eq!(m.bonds.len(), 1);
    assert_eq!((m.bonds[0].atom1_id, m.bonds[0].atom2_id, m.bonds[0].order), (1, 2, BondOrder::Single));

    let mut far = Molecule::new();
    far.add_atom(atom_at(1, 1, ' ', 'A', 0, 0, 0));
    far.add_atom(atom_at(2, 1, ' ', 'A', 5000, 5000, 5000));
    far.calculate_bonds();
    assert!(far.bonds.is_empty());
}

#[test]
fn calculate_bonds_is_strict_at_two_units() {
    let mut m = Molecule::new();
    m.add_atom(atom_at(1, 1, ' ', 'A', 0, 0, 0));
    m.add_atom(atom_at(2, 1, ' ', 'A', 2000, 0, 0));
    m.add_atom(atom_at(3, 1, ' ', 'A', 0, -1999, 0));
    m.add_atom(atom_at(4, 1, ' ', 'A', 100, 2100, 0));
    m.calculate_bonds();
    let pairs: Vec<(usize, usize)> = m.bonds.iter().map(|b| (b.atom1_id, b.atom2_id)).collect();
    assert_eq!(pairs, vec![(1, 3)]);
}

#[test]
fn calculate_bonds_adds_the_three_squares() {
    let mut m = Molecule::new();
    // 1.2^2 + 1.2^2 + 1.1^2 = 4.09; 1.1^2 + 1.1^2 + 1.2^2 = 3.86
    m.add_atom(atom_at(1, 1, ' ', 'A', 0, 0, 0));
    m.add_atom(atom_at(2, 1, ' ', 'A', 1200, -1200, 1100));
    m.add_atom(atom_at(3, 1, ' ', 'A', -1100, 1100, -1200));
    m.calculate_bonds();
    let pairs: Vec<(usize, usize)> = m.bonds.iter().map(|b| (b.atom1_id, b.atom2_id)).collect();
    assert_eq!(pairs, vec![(1, 3)]);
}

#[test]
fn calculate_bonds_goes_through_the_pairs_in_order() {
    let mut m = Molecule::new();
    m.add_atom(atom_at(10, 1, ' ', 'A', 0, 0, 0));
    m.add_atom(atom_at(20, 1, ' ', 'A', 1000, 0, 0));
    m.add_atom(atom_at(30, 1, ' ', 'A', 0, 1000, 0));
    m.add_atom(atom_at(40, 1, ' ', 'A', 9000, 0, 0));
    m.add_atom(atom_at(50, 1, ' ', 'A', 1000, 1000, 0));
    m.calculate_bonds();
    let pairs: Vec<(usize, usize)> = m.bonds.iter().map(|b| (b.atom1_id, b.atom2_id)).collect();
    assert_eq!(pairs, vec![(10, 20), (10, 30), (10, 50), (20, 30), (20, 50), (30, 50)]);
}

#[test]
fn calculate_bonds_adds_behind_the_bonds_that_are_there_and_touches_nothing_else() {
    let mut m = Molecule::new();
    m.start_model(1);
    m.add_atom(atom_at(1, 1, ' ', 'A', 0, 0, 0));
    m.add_atom(atom_at(2, 2, ' ', 'B', 500, 0, 0));
    m.add_bond(9, 9, BondOrder::Double);
    m.calculate_bonds();
    m.calculate_bonds();
    assert_eq!(m.bonds.len(), 3);
    assert_eq!(m.bonds[0].order, BondOrder::Double);
    assert_eq!((m.bonds[1].atom1_id, m.bonds[1].atom2_id), (1, 2));
    assert_eq!((m.bonds[2].atom1_id, m.bonds[2].atom2_id), (1, 2));
    assert_eq!(m.atoms.len(), 2);
    assert_eq!(m.residues.len(), 2);
    assert_eq!(m.chains.len(), 2);
    assert_eq!(m.models.len(), 1);
    assert_eq!(m.models[0].atoms, vec![1, 2]);
    assert_eq!(m.current_model, Some(0));
}

#[test]
fn calculate_bonds_takes_the_largest_coordinates() {
    let mut m = Molecule::new();
    let mut a = atom(1, 1, ' ', 'A');
    a.position = [
        Decimal { negative: false, magnitude: u64::MAX },
        Decimal { negative: true, magnitude: u64::MAX },
        Decimal { negative: false, magnitude: 0 },
    ];
    let mut b = atom(2, 1, ' ', 'A');
    b.position = [
        Decimal { negative: true, magnitude: u64::MAX },
        Decimal { negative: true, magnitude: u64::MAX },
        Decimal { negative: true, magnitude: 0 },
    ];
    let mut c = atom(3, 1, ' ', 'A');
    c.position = [
        Decimal { negative: false, magnitude: u64::MAX - 19_999_999 },
        Decimal { negative: true, magnitude: u64::MAX },
        Decimal { negative: false, magnitude: 0 },
    ];
    m.add_atom(a);
    m.add_atom(b);
    m.add_atom(c);
    m.calculate_bonds();
    let pairs: Vec<(usize, usize)> = m.bonds.iter().map(|b| (b.atom1_id, b.atom2_id)).collect();
    assert_eq!(pairs, vec![(1, 3)]);
}
