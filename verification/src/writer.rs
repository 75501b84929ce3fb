//! Writing a molecule back as fixed-column records, and resolving its
//! bonds to positions in the atom sequence.

use vstd::prelude::*;
use crate::format::{
    blanks, decimal_digits, fixed_notation, format_decimal, left_aligned, push_all, push_blanks,
    push_left_aligned, push_number, push_right_aligned, right_aligned,
};
use crate::parser::{molecule_of_text, PdbParser};
use crate::structure::{Atom, AtomView, Bond, BondOrder, Molecule, MoleculeView};
use crate::text::{string_of, to_chars};

verus! {

/// The record name of an atom line.
pub open spec fn record_name(is_hetatm: bool) -> Seq<char> {
    if is_hetatm {
        seq!['H', 'E', 'T', 'A', 'T', 'M']
    } else {
        seq!['A', 'T', 'O', 'M']
    }
}

/// The line that describes the atom `a`: record name (columns 1 to 6),
/// serial number (7 to 11), name (13 to 16), alternate location (17),
/// residue name (18 to 20), chain (22), residue sequence number (23 to
/// 26), insertion code (27), coordinates with three fraction digits (31 to
/// 54), occupancy and temperature factor with two (55 to 66), and element
/// symbol (77 to 78). Numbers and the residue name stand at the right of
/// their columns, names at the left; what is wider than its columns is
/// written in full and moves what follows to the right.
#[verifier::opaque]
pub open spec fn atom_line(a: AtomView) -> Seq<char> {
    left_aligned(record_name(a.is_hetatm), 6) + right_aligned(decimal_digits(a.id as nat), 5)
        + seq![' '] + left_aligned(a.name, 4) + seq![a.alt_loc] + right_aligned(a.residue_name, 3)
        + seq![' '] + seq![a.chain_id] + right_aligned(decimal_digits(a.residue_id as nat), 4)
        + seq![a.ins_code] + blanks(3) + right_aligned(fixed_notation(a.x, 3), 8) + right_aligned(
        fixed_notation(a.y, 3),
        8,
    ) + right_aligned(fixed_notation(a.z, 3), 8) + right_aligned(fixed_notation(a.occupancy, 2), 6)
        + right_aligned(fixed_notation(a.b_factor, 2), 6) + blanks(10) + right_aligned(
        a.element.symbol_chars(),
        2,
    )
}

/// The line that ends the records of a chain after the atom `a`: the tag
/// `TER`, the serial number that follows that of `a`, and the residue
/// name, chain, residue sequence number and insertion code of `a`, in the
/// columns they have in an atom line.
pub open spec fn ter_line(a: AtomView) -> Seq<char> {
    seq!['T', 'E', 'R'] + blanks(3) + right_aligned(decimal_digits((a.id + 1) as nat), 5) + blanks(
        6,
    ) + right_aligned(a.residue_name, 3) + seq![' '] + seq![a.chain_id] + right_aligned(
        decimal_digits(a.residue_id as nat),
        4,
    ) + seq![a.ins_code]
}

/// The lines of the first `n` atoms, each but the first behind a line
/// feed.
pub open spec fn atom_lines(atoms: Seq<AtomView>, n: int) -> Seq<char>
    decreases n,
{
    if n <= 0 {
        Seq::empty()
    } else if n == 1 {
        atom_line(atoms[0])
    } else {
        atom_lines(atoms, n - 1) + seq!['\n'] + atom_line(atoms[n - 1])
    }
}

/// The records of the atoms, one line for each in their order, and behind
/// the last a terminating line; lines are parted by line feeds, and no
/// line feed stands at the end. No atoms give an empty text.
pub open spec fn records_text(atoms: Seq<AtomView>) -> Seq<char> {
    if atoms.len() == 0 {
        Seq::empty()
    } else {
        atom_lines(atoms, atoms.len() as int) + seq!['\n'] + ter_line(atoms.last())
    }
}

/// Appends the line that describes `atom`.
pub fn push_atom_line(out: &mut Vec<char>, atom: &Atom)
    ensures
        final(out)@ == old(out)@ + atom_line(atom@),
{
    let ghost a = atom@;
    let ghost start = out@;
    let hetatm: [char; 6] = ['H', 'E', 'T', 'A', 'T', 'M'];
    let plain: [char; 4] = ['A', 'T', 'O', 'M'];
    let mut line: Vec<char> = Vec::new();
    if atom.is_hetatm {
        push_left_aligned(&mut line, hetatm.as_slice(), 6);
    } else {
        push_left_aligned(&mut line, plain.as_slice(), 6);
    }
    assert(hetatm@ =~= record_name(true));
    assert(plain@ =~= record_name(false));
    assert(line@ =~= left_aligned(record_name(a.is_hetatm), 6));
    let mut serial: Vec<char> = Vec::new();
    push_number(&mut serial, atom.id as u128);
    assert(serial@ =~= decimal_digits(a.id as nat));
    push_right_aligned(&mut line, serial.as_slice(), 5);
    line.push(' ');
    let name = to_chars(atom.name.as_str());
    push_left_aligned(&mut line, name.as_slice(), 4);
    line.push(atom.alt_loc);
    let residue_name = to_chars(atom.residue_name.as_str());
    push_right_aligned(&mut line, residue_name.as_slice(), 3);
    line.push(' ');
    line.push(atom.chain_id);
    let mut residue: Vec<char> = Vec::new();
    push_number(&mut residue, atom.residue_id as u128);
    assert(residue@ =~= decimal_digits(a.residue_id as nat));
    push_right_aligned(&mut line, residue.as_slice(), 4);
    line.push(atom.ins_code);
    push_blanks(&mut line, 3);
    let x = format_decimal(atom.position[0], 3);
    push_right_aligned(&mut line, x.as_slice(), 8);
    let y = format_decimal(atom.position[1], 3);
    push_right_aligned(&mut line, y.as_slice(), 8);
    let z = format_decimal(atom.position[2], 3);
    push_right_aligned(&mut line, z.as_slice(), 8);
    let occupancy = format_decimal(atom.occupancy, 2);
    push_right_aligned(&mut line, occupancy.as_slice(), 6);
    let b_factor = format_decimal(atom.b_factor, 2);
    push_right_aligned(&mut line, b_factor.as_slice(), 6);
    push_blanks(&mut line, 10);
    let symbol = atom.element.symbol();
    push_right_aligned(&mut line, symbol.as_slice(), 2);
    assert(line@ =~= atom_line(a)) by {
        reveal(atom_line);
    }
    push_all(out, line.as_slice());
}

/// Appends the line that ends the records after `atom`.
pub fn push_ter_line(out: &mut Vec<char>, atom: &Atom)
    ensures
        final(out)@ == old(out)@ + ter_line(atom@),
{
    let ghost a = atom@;
    let mut line: Vec<char> = Vec::new();
    line.push('T');
    line.push('E');
    line.push('R');
    assert(line@ =~= seq!['T', 'E', 'R']);
    push_blanks(&mut line, 3);
    let mut serial: Vec<char> = Vec::new();
    push_number(&mut serial, atom.id as u128 + 1);
    assert(serial@ =~= decimal_digits((a.id + 1) as nat));
    push_right_aligned(&mut line, serial.as_slice(), 5);
    push_blanks(&mut line, 6);
    let residue_name = to_chars(atom.residue_name.as_str());
    push_right_aligned(&mut line, residue_name.as_slice(), 3);
    line.push(' ');
    line.push(atom.chain_id);
    let mut residue: Vec<char> = Vec::new();
    push_number(&mut residue, atom.residue_id as u128);
    assert(residue@ =~= decimal_digits(a.residue_id as nat));
    push_right_aligned(&mut line, residue.as_slice(), 4);
    line.push(atom.ins_code);
    assert(line@ =~= ter_line(a));
    push_all(out, line.as_slice());
}

/// The line that describes `atom`.
pub fn format_atom_line(atom: &Atom) -> (line: String)
    ensures
        line@ == atom_line(atom@),
{
    let mut out: Vec<char> = Vec::new();
    push_atom_line(&mut out, atom);
    assert(out@ =~= atom_line(atom@));
    string_of(out.as_slice())
}

/// The line that ends the records after `atom`.
pub fn format_ter_line(atom: &Atom) -> (line: String)
    ensures
        line@ == ter_line(atom@),
{
    let mut out: Vec<char> = Vec::new();
    push_ter_line(&mut out, atom);
    assert(out@ =~= ter_line(atom@));
    string_of(out.as_slice())
}

/// Writes the atoms of a molecule as records: a line for each atom and a
/// terminating line behind the last.
pub fn write_records(molecule: &Molecule) -> (text: String)
    ensures
        text@ == records_text(molecule@.atoms),
{
    let n: usize = molecule.atoms.len();
    let ghost atoms = molecule@.atoms;
    let mut out: Vec<char> = Vec::new();
    let mut i: usize = 0;
    while i < n
        invariant
            i <= n,
            n == molecule.atoms.len(),
            atoms == molecule@.atoms,
            out@ == atom_lines(atoms, i as int),
        decreases n - i,
    {
        if i > 0 {
            out.push('\n');
        }
        push_atom_line(&mut out, &molecule.atoms[i]);
        assert(out@ =~= atom_lines(atoms, i + 1));
        i += 1;
    }
    if n > 0 {
        out.push('\n');
        push_ter_line(&mut out, &molecule.atoms[n - 1]);
        assert(out@ =~= records_text(atoms));
    }
    string_of(out.as_slice())
}

/// Reads a text and writes the atoms it describes back as records.
pub fn prepare_for_3dmol(pdb_content: &str) -> (text: String)
    ensures
        text@ == records_text(molecule_of_text(pdb_content@).atoms),
{
    let parser = PdbParser::new();
    let molecule = parser.parse_string(pdb_content);
    write_records(&molecule)
}

/// A bond between two positions of the atom sequence.
#[derive(Debug, Clone, Copy, PartialEq, Eq, Structural)]
pub struct BondLink {
    pub from: usize,
    pub to: usize,
    /// The number of lines by which the bond is drawn.
    pub order: u8,
}

/// The last position in `atoms` of an atom with the serial number `id`.
pub open spec fn last_position(atoms: Seq<AtomView>, id: usize) -> Option<int>
    decreases atoms.len(),
{
    if atoms.len() == 0 {
        None
    } else if atoms.last().id == id {
        Some(atoms.len() - 1)
    } else {
        last_position(atoms.drop_last(), id)
    }
}

/// The position that a serial number is resolved to: the last position of
/// an atom that has it, or the first position of all if none has.
pub open spec fn resolved_position(atoms: Seq<AtomView>, id: usize) -> int {
    match last_position(atoms, id) {
        Some(k) => k,
        None => 0,
    }
}

impl BondOrder {
    /// The number of lines by which a bond of this order is drawn: an
    /// aromatic bond is drawn as a single one.
    pub open spec fn line_count(self) -> u8 {
        match self {
            BondOrder::Single => 1,
            BondOrder::Double => 2,
            BondOrder::Triple => 3,
            BondOrder::Aromatic => 1,
        }
    }

    /// The number of lines by which a bond of this order is drawn.
    pub fn lines(&self) -> (n: u8)
        ensures
            n == self.line_count(),
    {
        match self {
            BondOrder::Single => 1,
            BondOrder::Double => 2,
            BondOrder::Triple => 3,
            BondOrder::Aromatic => 1,
        }
    }
}

/// The link that a bond becomes among the atoms `atoms`.
pub open spec fn link_of(atoms: Seq<AtomView>, bond: Bond) -> BondLink {
    BondLink {
        from: resolved_position(atoms, bond.atom1_id) as usize,
        to: resolved_position(atoms, bond.atom2_id) as usize,
        order: bond.order.line_count(),
    }
}

/// The links that the bonds of a molecule become, in the order of the
/// bonds.
pub open spec fn links_of(m: MoleculeView) -> Seq<BondLink> {
    Seq::new(m.bonds.len(), |i: int| link_of(m.atoms, m.bonds[i]))
}

/// The last position of a serial number lies within the atoms, and the
/// atom there has the serial number.
pub proof fn lemma_last_position(atoms: Seq<AtomView>, id: usize)
    ensures
        last_position(atoms, id) matches Some(k) ==> 0 <= k < atoms.len() && atoms[k].id == id
            && forall|i: int| k < i < atoms.len() ==> (#[trigger] atoms[i]).id != id,
        last_position(atoms, id) is None ==> forall|i: int|
            0 <= i < atoms.len() ==> (#[trigger] atoms[i]).id != id,
    decreases atoms.len(),
{
    if atoms.len() > 0 && atoms.last().id != id {
        let rest = atoms.drop_last();
        lemma_last_position(rest, id);
        match last_position(rest, id) {
            Some(k) => {
                assert forall|i: int| k < i < atoms.len() implies (#[trigger] atoms[i]).id
                    != id by {
                    if i < rest.len() {
                        assert(rest[i].id != id);
                    }
                }
            },
            None => {
                assert forall|i: int| 0 <= i < atoms.len() implies (#[trigger] atoms[i]).id
                    != id by {
                    if i < rest.len() {
                        assert(rest[i].id != id);
                    }
                }
            },
        }
    }
}

impl Molecule {
    /// The last position in the atom sequence of an atom with the serial
    /// number `id`, if any atom has it.
    pub fn atom_index(&self, id: usize) -> (r: Option<usize>)
        ensures
            match r {
                Some(k) => last_position(self@.atoms, id) == Some(k as int),
                None => last_position(self@.atoms, id) is None,
            },
    {
        let ghost atoms = self@.atoms;
        let mut k: usize = self.atoms.len();
        assert(atoms.take(k as int) =~= atoms);
        while k > 0
            invariant
                k <= self.atoms.len(),
                atoms == self@.atoms,
                last_position(atoms, id) == last_position(atoms.take(k as int), id),
            decreases k,
        {
            proof {
                assert(atoms.take(k as int).drop_last() =~= atoms.take(k - 1));
            }
            if self.atoms[k - 1].id == id {
                return Some(k - 1);
            }
            k -= 1;
        }
        assert(atoms.take(0).len() == 0);
        None
    }

    /// The bonds of the molecule as links between positions of its atom
    /// sequence. A serial number that several atoms have is resolved to
    /// the last of them, and one that no atom has to the first position.
    pub fn bond_links(&self) -> (links: Vec<BondLink>)
        ensures
            links@ == links_of(self@),
    {
        let mut links: Vec<BondLink> = Vec::new();
        let mut i: usize = 0;
        while i < self.bonds.len()
            invariant
                i <= self.bonds.len(),
                links@ == links_of(self@).take(i as int),
            decreases self.bonds.len() - i,
        {
            let bond = &self.bonds[i];
            let from: usize = match self.atom_index(bond.atom1_id) {
                Some(k) => k,
                None => 0,
            };
            let to: usize = match self.atom_index(bond.atom2_id) {
                Some(k) => k,
                None => 0,
            };
            links.push(BondLink { from, to, order: bond.order.lines() });
            assert(links@ =~= links_of(self@).take(i + 1));
            i += 1;
        }
        assert(links_of(self@).take(self.bonds.len() as int) =~= links_of(self@));
        links
    }
}

/// Reads a text and resolves the bonds inferred from it to positions in
/// the atom sequence.
pub fn get_3dmol_bonds(pdb_content: &str) -> (links: Vec<BondLink>)
    ensures
        links@ == links_of(molecule_of_text(pdb_content@)),
{
    let parser = PdbParser::new();
    let molecule = parser.parse_string(pdb_content);
    molecule.bond_links()
}

} // verus!
