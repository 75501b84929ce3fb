use molecule_core::{BondOrder, Decimal, Element, Molecule, PdbParser};

fn atom_record(tag: &str, id: usize, name: &str, chain: char, residue: usize, x: &str, y: &str, z: &str) -> String {
    format!(
        "{:<6}{:>5} {:<4} ALA {}{:>4}    {:>8}{:>8}{:>8}  1.00  0.00           C",
        tag, id, name, chain, residue, x, y, z
    )
}

fn bond_pairs(m: &Molecule) -> Vec<(usize, usize)> {
    m.bonds.iter().map(|b| (b.atom1_id, b.atom2_id)).collect()
}

#[test]
fn empty_text_gives_an_empty_molecule() {
    let parser = PdbParser::new();
    for text in ["", "\n", "\n\n\n", "REMARK only\nEND\n"].iter() {
        let m = parser.parse_string(text);
        assert!(m.atoms.is_empty());
        assert!(m.bonds.is_empty());
        assert!(m.residues.is_empty());
        assert!(m.chains.is_empty());
        assert!(m.models.is_empty());
        assert_eq!(m.current_model, None);
    }
}

#[test]
fn two_atoms_one_unit_apart_are_bonded_and_far_ones_are_not() {
    let parser = PdbParser::new();
    let near = format!(
        "{}\n{}\n",
        atom_record("ATOM", 1, "N", 'A', 1, "0.000", "0.000", "0.000"),
        atom_record("ATOM", 2, "CA", 'A', 1, "1.000", "0.000", "0.000")
    );
    let m = parser.parse_string(&near);
    assert_eq!(bond_pairs(&m), vec![(1, 2)]);
    assert_eq!(m.bonds[0].order, BondOrder::Single);

    let far = format!(
        "{}\n{}\n",
        atom_record("ATOM", 1, "N", 'A', 1, "0.000", "0.000", "0.000"),
        atom_record("ATOM", 2, "CA", 'A', 1, "5.000", "5.000", "5.000")
    );
    let m = parser.parse_string(&far);
    assert_eq!(m.atoms.len(), 2);
    assert!(m.bonds.is_empty());
}

#[test]
fn two_units_apart_is_too_far() {
    let parser = PdbParser::new();
    let text = format!(
        "{}\n{}\n{}\n",
        atom_record("ATOM", 1, "N", 'A', 1, "0.100", "0.000", "0.000"),
        atom_record("ATOM", 2, "CA", 'A', 1, "2.100", "0.000", "0.000"),
        atom_record("ATOM", 3, "C", 'A', 1, "2.099", "9.000", "0.000")
    );
    let m = parser.parse_string(&text);
    assert!(m.bonds.is_empty());
    let text = format!(
        "{}\n{}\n",
        atom_record("ATOM", 1, "N", 'A', 1, "0.100", "0.000", "0.000"),
        atom_record("ATOM", 2, "CA", 'A', 1, "2.099", "0.000", "0.000")
    );
    assert_eq!(bond_pairs(&parser.parse_string(&text)), vec![(1, 2)]);
}

#[test]
fn bonds_are_inferred_across_models() {
    let parser = PdbParser::new();
    let text = format!(
        "MODEL        1\n{}\n{}\nENDMDL\nMODEL        2\n{}\n{}\nENDMDL\n",
        atom_record("ATOM", 1, "N", 'A', 1, "0.000", "0.000", "0.000"),
        atom_record("ATOM", 2, "CA", 'A', 1, "1.000", "0.000", "0.000"),
        atom_record("ATOM", 3, "N", 'A', 1, "0.000", "1.000", "0.000"),
        atom_record("ATOM", 4, "CA", 'A', 1, "1.000", "1.000", "0.000")
    );
    let m = parser.parse_string(&text);
    assert_eq!(m.atoms.len(), 4);
    assert_eq!(m.models.len(), 2);
    assert_eq!((m.models[0].id, m.models[1].id), (1, 2));
    assert_eq!(m.models[0].atoms, vec![1, 2]);
    assert_eq!(m.models[1].atoms, vec![3, 4]);
    assert_eq!(m.current_model, None);
    assert_eq!(bond_pairs(&m), vec![(1, 2), (1, 3), (1, 4), (2, 3), (2, 4), (3, 4)]);
}

#[test]
fn atoms_outside_models_join_none() {
    let parser = PdbParser::new();
    let text = format!(
        "{}\nMODEL        7\n{}\nENDMDL\n{}\n",
        atom_record("ATOM", 1, "N", 'A', 1, "0.000", "0.000", "0.000"),
        atom_record("ATOM", 2, "CA", 'A', 1, "9.000", "0.000", "0.000"),
        atom_record("ATOM", 3, "C", 'A', 1, "0.000", "9.000", "0.000")
    );
    let m = parser.parse_string(&text);
    assert_eq!(m.atoms.len(), 3);
    assert_eq!(m.models.len(), 1);
    assert_eq!(m.models[0].id, 7);
    assert_eq!(m.models[0].atoms, vec![2]);
    assert_eq!(m.residues.len(), 1);
    assert_eq!(m.residues[0].atoms, vec![1, 2, 3]);
}

#[test]
fn a_model_line_without_a_number_opens_nothing() {
    let parser = PdbParser::new();
    let text = format!(
        "MODEL\nMODEL        x\n{}\n",
        atom_record("ATOM", 1, "N", 'A', 1, "0.000", "0.000", "0.000")
    );
    let m = parser.parse_string(&text);
    assert_eq!(m.atoms.len(), 1);
    assert!(m.models.is_empty());
    assert_eq!(m.current_model, None);
}

#[test]
fn heteroatom_flags_follow_the_records() {
    let parser = PdbParser::new();
    let text = format!(
        "{}\n{}\n",
        atom_record("ATOM", 1, "N", 'A', 1, "0.000", "0.000", "0.000"),
        atom_record("HETATM", 2, "O", 'B', 1, "5.000", "5.000", "5.000")
    );
    let m = parser.parse_string(&text);
    let flags: Vec<bool> = m.atoms.iter().map(|a| a.is_hetatm).collect();
    assert_eq!(flags, vec![false, true]);
}

#[test]
fn same_residue_position_in_two_chains_is_one_residue() {
    let parser = PdbParser::new();
    let text = format!(
        "{}\n{}\n",
        atom_record("ATOM", 1, "N", 'A', 12, "0.000", "0.000", "0.000"),
        atom_record("ATOM", 2, "N", 'B', 12, "9.000", "0.000", "0.000")
    );
    let m = parser.parse_string(&text);
    assert_eq!(m.residues.len(), 1);
    assert_eq!(m.residues[0].id, 12);
    assert_eq!(m.residues[0].atoms, vec![1, 2]);
    assert_eq!(m.chains.len(), 2);
    assert_eq!(m.chain('A').unwrap().residues, vec![12]);
    assert_eq!(m.chain('B').unwrap().residues, vec![12]);
}

#[test]
fn alternate_locations_are_separate_atoms() {
    let parser = PdbParser::new();
    let text = "\
ATOM      1  N  AALA A   1       0.000   0.000   0.000  0.60  0.00           N
ATOM      2  N  BALA A   1       0.100   0.100   0.100  0.40  0.00           N
";
    let m = parser.parse_string(text);
    assert_eq!(m.atoms.len(), 2);
    assert_eq!((m.atoms[0].name.as_str(), m.atoms[0].alt_loc), ("N", 'A'));
    assert_eq!((m.atoms[1].name.as_str(), m.atoms[1].alt_loc), ("N", 'B'));
    assert_eq!(m.atoms[0].occupancy, Decimal { negative: false, magnitude: 6_000_000 });
    assert_eq!(m.atoms[1].occupancy, Decimal { negative: false, magnitude: 4_000_000 });
    assert_eq!(m.residues.len(), 1);
    assert_eq!(m.residues[0].atoms, vec![1, 2]);
    assert_eq!(bond_pairs(&m), vec![(1, 2)]);
}

#[test]
fn duplicate_serial_numbers_are_accepted() {
    let parser = PdbParser::new();
    let text = format!(
        "{}\n{}\n",
        atom_record("ATOM", 5, "N", 'A', 1, "0.000", "0.000", "0.000"),
        atom_record("ATOM", 5, "CA", 'A', 1, "0.500", "0.000", "0.000")
    );
    let m = parser.parse_string(&text);
    assert_eq!(m.atoms.len(), 2);
    assert_eq!(m.residues[0].atoms, vec![5, 5]);
    assert_eq!(bond_pairs(&m), vec![(5, 5)]);
}

#[test]
fn malformed_lines_are_passed_over() {
    let parser = PdbParser::new();
    let text = format!(
        "HEADER    TEST\n{}\nATOM      2  CA  ALA A   1\nATOM      x  CA  ALA A   1       1.000   0.000   0.000\n{}\nTER\nATOM\n\n{}\nEND\n",
        atom_record("ATOM", 1, "N", 'A', 1, "0.000", "0.000", "0.000"),
        atom_record("ATOM", 3, "C", 'A', 1, "abc", "0.000", "0.000"),
        atom_record("ATOM", 4, "O", 'A', 1, "1.000", "0.000", "0.000")
    );
    let m = parser.parse_string(&text);
    let ids: Vec<usize> = m.atoms.iter().map(|a| a.id).collect();
    assert_eq!(ids, vec![1, 4]);
    assert_eq!(bond_pairs(&m), vec![(1, 4)]);
}

#[test]
fn lines_end_at_line_feeds_with_or_without_carriage_returns() {
    let parser = PdbParser::new();
    let first = atom_record("ATOM", 1, "N", 'A', 1, "0.000", "0.000", "0.000");
    let second = atom_record("HETATM", 2, "O", 'A', 1, "1.000", "0.000", "0.000");
    let unix = format!("{}\n{}\n", first, second);
    let dos = format!("{}\r\n{}\r\n", first, second);
    let open = format!("{}\n{}", first, second);
    let want = format!("{:?}", parser.parse_string(&unix));
    assert_eq!(format!("{:?}", parser.parse_string(&dos)), want);
    assert_eq!(format!("{:?}", parser.parse_string(&open)), want);
    assert_eq!(parser.parse_string(&unix).atoms.len(), 2);
}

#[test]
fn a_carriage_return_is_dropped_only_before_a_line_feed() {
    let parser = PdbParser::new();
    let short: String = atom_record("ATOM", 1, "CA", 'A', 1, "0.000", "0.000", "0.000")
        .chars()
        .take(76)
        .collect();
    let with_return = format!("{}\rX\n", short);
    let m = parser.parse_string(&with_return);
    assert_eq!(m.atoms.len(), 1);
    assert_eq!(m.atoms[0].element, Element::Unknown);
    let dos = format!("{} O\r\n", short);
    let m = parser.parse_string(&dos);
    assert_eq!(m.atoms[0].element, Element::O);
    let last = format!("{} \r", short);
    let m = parser.parse_string(&last);
    assert_eq!(m.atoms[0].element, Element::C);
}

#[test]
fn parse_lines_reads_what_parse_string_reads() {
    let parser = PdbParser::new();
    let lines = vec![
        String::from("MODEL        1"),
        atom_record("ATOM", 1, "N", 'A', 1, "0.000", "0.000", "0.000"),
        String::from("garbage"),
        atom_record("HETATM", 2, "CA", 'B', 2, "1.000", "0.000", "0.000"),
        String::from("ENDMDL"),
    ];
    let text = lines.join("\n");
    let from_lines = parser.parse_lines(&lines);
    let from_text = parser.parse_string(&text);
    assert_eq!(format!("{:?}", from_lines), format!("{:?}", from_text));
    assert_eq!(from_lines.atoms.len(), 2);
    assert_eq!(bond_pairs(&from_lines), vec![(1, 2)]);
    assert!(parser.parse_lines(&Vec::new()).atoms.is_empty());
}

#[test]
fn parse_line_reads_one_line_into_a_molecule() {
    let parser = PdbParser::new();
    let mut m = Molecule::new();
    parser.parse_line(&mut m, "MODEL        4");
    parser.parse_line(&mut m, &atom_record("ATOM", 1, "N", 'A', 1, "0.000", "0.000", "0.000"));
    parser.parse_line(&mut m, "nothing");
    assert_eq!(m.atoms.len(), 1);
    assert_eq!(m.models[0].atoms, vec![1]);
    assert!(m.bonds.is_empty());
}

#[test]
fn parsing_twice_gives_the_same_molecule() {
    let parser = PdbParser::new();
    let text = format!(
        "MODEL        1\n{}\n{}\nENDMDL\n{}\n",
        atom_record("ATOM", 1, "N", 'A', 1, "0.000", "0.000", "0.000"),
        atom_record("HETATM", 2, "CA", 'B', 1, "1.000", "0.000", "0.000"),
        atom_record("ATOM", 3, "C", 'B', 2, "1.500", "0.500", "0.000")
    );
    let first = parser.parse_string(&text);
    let second = parser.parse_string(&text);
    let third = PdbParser::new().parse_string(&text);
    assert_eq!(format!("{:?}", first), format!("{:?}", second));
    assert_eq!(format!("{:?}", first), format!("{:?}", third));
    assert_eq!(first.atoms.len(), 3);
    assert_eq!(first.bonds.len(), 3);
    assert_eq!(first.residues.len(), 2);
    assert_eq!(first.chains.len(), 2);
    assert_eq!(first.models.len(), 1);
}
