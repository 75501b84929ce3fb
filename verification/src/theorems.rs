//! What holds of every molecule and of every text: facts about the
//! specification functions, proved once for all inputs.

use vstd::prelude::*;
use crate::bonds::{bonded, inferred_bonds, row_bonds, single_bond};
use crate::decimal::{
    decimal_notation, decimal_of, decimal_units, exponent_of, fraction_digits, has_exponent,
    lemma_power_of_ten_grows, lemma_power_of_ten_positive, mantissa, number_notation,
    power_of_ten, shifted_units, unsigned_part, whole_digits, Decimal, DECIMAL_ONE,
    DECIMAL_PLACES,
};
use crate::format::{digit_char, fixed_digits, fixed_notation, lemma_digit_char};
use crate::round_trip::lemma_fixed_notation_round_trip;
use crate::parser::{
    after_line, after_lines, atom_of_line, atom_tag, end_model_tag, field, hetatm_tag, model_tag,
    molecule_of_text, record_kind, well_formed_atom_line, RecordKind,
};
use crate::structure::{
    chain_members, chain_position, chain_position_from, chains_with, first_residue_name, members,
    residue_position, residue_position_from, residues_with, AtomView, Bond, ChainView, ModelView,
    Molecule, MoleculeView, ResidueView,
};
use crate::text::{
    all_digits, digit, digit_value, digits_value, first_position, lemma_digits_value_push,
    lemma_first_position, lemma_first_position_found, lemma_first_position_range, trimmed,
    trimmed_end, trimmed_start, usize_of, whitespace,
};

verus! {

/// Where the first residue with a key is looked for from `from` on: the
/// position found is the first behind `from` with that key, or the length
/// if no residue behind `from` has it.
pub proof fn lemma_residue_position(
    residues: Seq<ResidueView>,
    id: usize,
    ins_code: char,
    from: int,
)
    requires
        0 <= from <= residues.len(),
    ensures
        from <= residue_position_from(residues, id, ins_code, from) <= residues.len(),
        forall|i: int|
            from <= i < residue_position_from(residues, id, ins_code, from) ==> !((
            #[trigger] residues[i]).id == id && residues[i].ins_code == ins_code),
        residue_position_from(residues, id, ins_code, from) < residues.len() ==> {
            let k = residue_position_from(residues, id, ins_code, from);
            residues[k].id == id && residues[k].ins_code == ins_code
        },
    decreases residues.len() - from,
{
    if from < residues.len() && !(residues[from].id == id && residues[from].ins_code == ins_code) {
        lemma_residue_position(residues, id, ins_code, from + 1);
    }
}

/// Where the first chain with an identifier is looked for from `from` on:
/// the position found is the first behind `from` with that identifier, or
/// the length if no chain behind `from` has it.
pub proof fn lemma_chain_position(chains: Seq<ChainView>, id: char, from: int)
    requires
        0 <= from <= chains.len(),
    ensures
        from <= chain_position_from(chains, id, from) <= chains.len(),
        forall|i: int|
            from <= i < chain_position_from(chains, id, from) ==> (#[trigger] chains[i]).id != id,
        chain_position_from(chains, id, from) < chains.len() ==> chains[chain_position_from(
            chains,
            id,
            from,
        )].id == id,
    decreases chains.len() - from,
{
    if from < chains.len() && chains[from].id != id {
        lemma_chain_position(chains, id, from + 1);
    }
}

/// Adding an atom keeps a molecule well formed.
pub proof fn lemma_with_atom_well_formed(m: MoleculeView, a: AtomView)
    requires
        m.well_formed(),
    ensures
        m.with_atom(a).well_formed(),
{
    let after = m.with_atom(a);
    lemma_residue_position(m.residues, a.residue_id, a.ins_code, 0);
    lemma_chain_position(m.chains, a.chain_id, 0);
    let c = chain_position(m.chains, a.chain_id);
    assert forall|i: int| 0 <= i < after.chains.len() implies (
    #[trigger] after.chains[i]).residues.no_duplicates() by {
        if i < m.chains.len() {
            assert(m.chains[i].residues.no_duplicates());
        }
    }
    assert forall|i: int, j: int| 0 <= i < j < after.residues.len() implies !(
    #[trigger] after.residues[i].id == #[trigger] after.residues[j].id && after.residues[i].ins_code
        == after.residues[j].ins_code) by {
        if j < m.residues.len() {
            assert(!(m.residues[i].id == m.residues[j].id && m.residues[i].ins_code
                == m.residues[j].ins_code));
        }
    }
    assert forall|i: int, j: int| 0 <= i < j < after.chains.len() implies #[trigger] after.chains[i].id
        != #[trigger] after.chains[j].id by {
        if j < m.chains.len() {
            assert(m.chains[i].id != m.chains[j].id);
        }
    }
}

/// Opening a model, closing one, adding a bond and inferring bonds keep a
/// molecule well formed.
pub proof fn lemma_other_steps_well_formed(m: MoleculeView, id: usize, bond: Bond)
    requires
        m.well_formed(),
    ensures
        m.with_model_opened(id).well_formed(),
        m.with_model_closed().well_formed(),
        m.with_bond(bond.atom1_id, bond.atom2_id, bond.order).well_formed(),
        m.with_inferred_bonds().well_formed(),
{
}

/// Reading a line keeps a molecule well formed.
pub proof fn lemma_after_line_well_formed(m: MoleculeView, line: Seq<char>)
    requires
        m.well_formed(),
    ensures
        after_line(m, line).well_formed(),
{
    match atom_of_line(line) {
        Some(a) => lemma_with_atom_well_formed(m, a),
        None => {},
    }
}

/// Reading lines keeps a molecule well formed.
pub proof fn lemma_after_lines_well_formed(m: MoleculeView, lines: Seq<Seq<char>>)
    requires
        m.well_formed(),
    ensures
        after_lines(m, lines).well_formed(),
    decreases lines.len(),
{
    if lines.len() > 0 {
        lemma_after_lines_well_formed(m, lines.drop_last());
        lemma_after_line_well_formed(after_lines(m, lines.drop_last()), lines.last());
    }
}

/// The molecule that a text builds is well formed.
pub proof fn lemma_molecule_of_text_well_formed(text: Seq<char>)
    ensures
        molecule_of_text(text).well_formed(),
{
    lemma_after_lines_well_formed(MoleculeView::empty(), crate::text::lines_of(text));
}

/// An atom is always added behind the atoms that are there: none is
/// dropped, merged with another or moved, whatever the two have in common.
pub proof fn lemma_atoms_are_kept(m: MoleculeView, a: AtomView, b: AtomView)
    ensures
        m.with_atom(a).atoms == m.atoms.push(a),
        m.with_atom(a).with_atom(b).atoms == m.atoms.push(a).push(b),
        m.with_atom(a).bonds == m.bonds,
        m.with_atom(a).current_model == m.current_model,
{
}

/// An atom joins the open model and no other; while no model is open, the
/// models stay as they are.
pub proof fn lemma_atom_joins_open_model(m: MoleculeView, a: AtomView)
    requires
        m.well_formed(),
    ensures
        m.with_atom(a).models.len() == m.models.len(),
        m.current_model is None ==> m.with_atom(a).models == m.models,
        m.current_model matches Some(k) ==> m.with_atom(a).models[k as int] == (ModelView {
            id: m.models[k as int].id,
            atoms: m.models[k as int].atoms.push(a.id),
        }),
        forall|i: int|
            0 <= i < m.models.len() && m.current_model != Some(i as usize) ==> (
            #[trigger] m.with_atom(a).models[i]) == m.models[i],
{
}

/// A model that was opened is the last of the models, is empty and is the
/// one that is open; the models before it stay as they are.
pub proof fn lemma_opened_model_is_last(m: MoleculeView, id: usize)
    requires
        m.models.len() < usize::MAX,
    ensures
        m.with_model_opened(id).models.len() == m.models.len() + 1,
        m.with_model_opened(id).models.last() == (ModelView { id, atoms: Seq::empty() }),
        m.with_model_opened(id).current_model == Some(m.models.len() as usize),
        m.models.is_prefix_of(m.with_model_opened(id).models),
{
    assert(m.models =~= m.with_model_opened(id).models.subrange(0, m.models.len() as int));
}

/// After a model was closed, atoms that are added join no model.
pub proof fn lemma_closed_model_stays_closed(m: MoleculeView, a: AtomView)
    ensures
        m.with_model_closed().with_atom(a).models == m.models,
        m.with_model_closed().with_atom(a).current_model is None,
{
}

/// Two atoms with the same residue sequence number and insertion code
/// share one residue, whatever their chains: the second atom adds no
/// residue, the residue of the two holds the serial numbers of both, and
/// the chain of each lists the residue.
pub proof fn lemma_same_position_shares_residue(m: MoleculeView, a: AtomView, b: AtomView)
    requires
        a.residue_id == b.residue_id,
        a.ins_code == b.ins_code,
    ensures
        m.with_atom(a).with_atom(b).residues.len() == m.with_atom(a).residues.len(),
        ({
            let residues = m.with_atom(a).with_atom(b).residues;
            let k = residue_position(residues, a.residue_id, a.ins_code);
            &&& 0 <= k < residues.len()
            &&& residues[k].id == a.residue_id
            &&& residues[k].ins_code == a.ins_code
            &&& residues[k].atoms.contains(a.id)
            &&& residues[k].atoms.last() == b.id
        }),
        ({
            let chains = m.with_atom(a).with_atom(b).chains;
            let i = chain_position(chains, a.chain_id);
            let j = chain_position(chains, b.chain_id);
            &&& 0 <= i < chains.len()
            &&& 0 <= j < chains.len()
            &&& chains[i].id == a.chain_id
            &&& chains[j].id == b.chain_id
            &&& chains[i].residues.contains(a.residue_id)
            &&& chains[j].residues.contains(a.residue_id)
        }),
{
    let first = m.with_atom(a);
    let second = first.with_atom(b);
    lemma_residue_listed(m.residues, a);
    lemma_residue_listed(first.residues, b);
    let k1 = residue_position(first.residues, a.residue_id, a.ins_code);
    let k2 = residue_position(second.residues, a.residue_id, a.ins_code);
    assert(k1 < first.residues.len());
    assert(second.residues == first.residues.update(
        k1,
        ResidueView { atoms: first.residues[k1].atoms.push(b.id), ..first.residues[k1] },
    ));
    assert(k2 == k1);
    let before = first.residues[k1].atoms;
    let j = choose|j: int| 0 <= j < before.len() && before[j] == a.id;
    assert(before.push(b.id)[j] == a.id);
    lemma_chain_listed(m.chains, a);
    lemma_chain_listed(first.chains, b);
    lemma_chain_kept(first.chains, b, a.chain_id, a.residue_id);
}

/// After an atom was added, a residue with its key is there, at the place
/// where one was before if one was, and holds its serial number last.
pub proof fn lemma_residue_listed(residues: Seq<ResidueView>, a: AtomView)
    ensures
        ({
            let after = residues_with(residues, a);
            let k = residue_position(after, a.residue_id, a.ins_code);
            &&& k == residue_position(residues, a.residue_id, a.ins_code)
            &&& 0 <= k < after.len()
            &&& after[k].id == a.residue_id
            &&& after[k].ins_code == a.ins_code
            &&& after[k].atoms.len() > 0
            &&& after[k].atoms.last() == a.id
            &&& after[k].atoms.contains(a.id)
            &&& after.len() == if k < residues.len() {
                residues.len()
            } else {
                residues.len() + 1
            }
        }),
{
    let after = residues_with(residues, a);
    let k = residue_position(residues, a.residue_id, a.ins_code);
    lemma_residue_position(residues, a.residue_id, a.ins_code, 0);
    lemma_residue_position(after, a.residue_id, a.ins_code, 0);
    let k2 = residue_position(after, a.residue_id, a.ins_code);
    assert(after[k].id == a.residue_id && after[k].ins_code == a.ins_code);
    if k2 < k {
        assert(after[k2].id == residues[k2].id && after[k2].ins_code == residues[k2].ins_code);
    }
    assert(after[k].atoms[after[k].atoms.len() - 1] == a.id);
}

/// After an atom was added, a chain with its identifier is there and lists
/// its residue.
pub proof fn lemma_chain_listed(chains: Seq<ChainView>, a: AtomView)
    ensures
        ({
            let after = chains_with(chains, a);
            let k = chain_position(after, a.chain_id);
            &&& k == chain_position(chains, a.chain_id)
            &&& 0 <= k < after.len()
            &&& after[k].id == a.chain_id
            &&& after[k].residues.contains(a.residue_id)
        }),
{
    let after = chains_with(chains, a);
    let k = chain_position(chains, a.chain_id);
    lemma_chain_position(chains, a.chain_id, 0);
    lemma_chain_position(after, a.chain_id, 0);
    let k2 = chain_position(after, a.chain_id);
    assert(after[k].id == a.chain_id);
    if k2 < k {
        assert(after[k2].id == chains[k2].id);
    }
    if k < chains.len() {
        if !chains[k].residues.contains(a.residue_id) {
            assert(chains[k].residues.push(a.residue_id)[chains[k].residues.len() as int]
                == a.residue_id);
        }
    } else {
        assert(seq![a.residue_id][0] == a.residue_id);
    }
}

/// What a chain lists stays listed when another atom is added: the chain
/// keeps its place, and its residues are still there.
pub proof fn lemma_chain_kept(chains: Seq<ChainView>, a: AtomView, id: char, residue_id: usize)
    requires
        chain_position(chains, id) < chains.len(),
        chains[chain_position(chains, id)].residues.contains(residue_id),
    ensures
        chain_position(chains_with(chains, a), id) == chain_position(chains, id),
        chains_with(chains, a)[chain_position(chains, id)].id == id,
        chains_with(chains, a)[chain_position(chains, id)].residues.contains(residue_id),
{
    let after = chains_with(chains, a);
    let k = chain_position(chains, id);
    lemma_chain_position(chains, id, 0);
    lemma_chain_position(chains, a.chain_id, 0);
    lemma_chain_position(after, id, 0);
    let k2 = chain_position(after, id);
    assert(after[k].id == id);
    if k2 < k {
        assert(after[k2].id == chains[k2].id);
    }
    let before = chains[k].residues;
    let j = choose|j: int| 0 <= j < before.len() && before[j] == residue_id;
    if after[k].residues != before {
        assert(after[k].residues == before.push(a.residue_id));
        assert(after[k].residues[j] == residue_id);
    }
}

/// A well-formed atom line describes an atom, and the atom's serial
/// number, name, residue name, chain, residue sequence number and position
/// are what the line holds in their columns, trimmed.
pub proof fn lemma_well_formed_line_decodes(line: Seq<char>)
    requires
        well_formed_atom_line(line),
    ensures
        atom_of_line(line) is Some,
        ({
            let a = atom_of_line(line)->0;
            &&& usize_of(field(line, 6, 11)) == Some(a.id)
            &&& a.name == field(line, 12, 16)
            &&& a.residue_name == field(line, 17, 20)
            &&& !whitespace(line[21]) ==> a.chain_id == line[21] && field(line, 21, 22)
                == seq![a.chain_id]
            &&& whitespace(line[21]) ==> a.chain_id == 'A'
            &&& usize_of(field(line, 22, 26)) == Some(a.residue_id)
            &&& decimal_of(field(line, 30, 38)) == Some(a.x)
            &&& decimal_of(field(line, 38, 46)) == Some(a.y)
            &&& decimal_of(field(line, 46, 54)) == Some(a.z)
            &&& a.alt_loc == line[16]
            &&& a.ins_code == line[26]
        }),
{
    if !whitespace(line[21]) {
        let c = line.subrange(21, 22);
        assert(c =~= seq![line[21]]);
        crate::text::lemma_trimmed_start_skips(c, 0);
        crate::text::lemma_trimmed_end_takes(c, 1);
        assert(c.take(1) =~= c);
    }
}

/// A line that is not well formed as an atom record describes no atom:
/// read as an atom or heteroatom record, it leaves the molecule as it is.
pub proof fn lemma_malformed_line_adds_nothing(m: MoleculeView, line: Seq<char>)
    requires
        !well_formed_atom_line(line),
        record_kind(line) == RecordKind::Atom || record_kind(line) == RecordKind::HetAtom,
    ensures
        atom_of_line(line) is None,
        after_line(m, line) == m,
{
}

/// The occupancy and the temperature factor never decide whether a line
/// describes an atom: where the line does not reach their columns, or the
/// columns hold no decimal, the occupancy is 1 and the temperature factor
/// is 0; otherwise they are the decimals in the columns.
pub proof fn lemma_optional_columns(line: Seq<char>)
    ensures
        atom_of_line(line) is Some <==> well_formed_atom_line(line),
        atom_of_line(line) matches Some(a) ==> {
            &&& a.occupancy == if line.len() >= 60 && decimal_of(field(line, 54, 60)) is Some {
                decimal_of(field(line, 54, 60))->0
            } else {
                Decimal { negative: false, magnitude: DECIMAL_ONE }
            }
            &&& a.b_factor == if line.len() >= 66 && decimal_of(field(line, 60, 66)) is Some {
                decimal_of(field(line, 60, 66))->0
            } else {
                Decimal { negative: false, magnitude: 0 }
            }
        },
{
}

/// No line carries two tags: the four tags differ in their first letter.
pub proof fn lemma_tags_exclude(line: Seq<char>)
    ensures
        record_kind(line) == RecordKind::ModelOpen <==> model_tag().is_prefix_of(line),
        record_kind(line) == RecordKind::ModelClose <==> end_model_tag().is_prefix_of(line),
        record_kind(line) == RecordKind::Atom <==> atom_tag().is_prefix_of(line),
        record_kind(line) == RecordKind::HetAtom <==> hetatm_tag().is_prefix_of(line),
        record_kind(line) != RecordKind::Other ==> line.len() >= 6,
{
    if model_tag().is_prefix_of(line) {
        assert(line.subrange(0, 6)[0] == 'M');
    }
    if end_model_tag().is_prefix_of(line) {
        assert(line.subrange(0, 6)[0] == 'E');
    }
    if atom_tag().is_prefix_of(line) {
        assert(line.subrange(0, 6)[0] == 'A');
    }
    if hetatm_tag().is_prefix_of(line) {
        assert(line.subrange(0, 6)[0] == 'H');
    }
}

/// The atom of a heteroatom record is flagged as a heteroatom, and the
/// atom of an atom record is not.
pub proof fn lemma_heteroatom_flag(line: Seq<char>)
    requires
        atom_of_line(line) is Some,
    ensures
        record_kind(line) == RecordKind::HetAtom ==> atom_of_line(line)->0.is_hetatm,
        record_kind(line) == RecordKind::Atom ==> !atom_of_line(line)->0.is_hetatm,
{
    lemma_tags_exclude(line);
}

/// Whatever a line holds, reading it drops nothing: the atoms and models
/// that were there come first in what is there afterwards, and the bonds
/// are untouched.
pub proof fn lemma_after_line_keeps(m: MoleculeView, line: Seq<char>)
    ensures
        m.atoms.is_prefix_of(after_line(m, line).atoms),
        after_line(m, line).models.len() >= m.models.len(),
        after_line(m, line).residues.len() >= m.residues.len(),
        after_line(m, line).chains.len() >= m.chains.len(),
        after_line(m, line).bonds == m.bonds,
{
    let after = after_line(m, line);
    assert(m.atoms =~= after.atoms.subrange(0, m.atoms.len() as int));
    if let Some(a) = atom_of_line(line) {
        lemma_residue_position(m.residues, a.residue_id, a.ins_code, 0);
        lemma_chain_position(m.chains, a.chain_id, 0);
    }
}

/// The molecule that a text builds depends on the text alone: two
/// molecules built from the same text hold the same atoms, bonds,
/// residues, chains and models.
pub proof fn lemma_same_text_same_molecule(first: Molecule, second: Molecule, text: Seq<char>)
    requires
        first@ == molecule_of_text(text),
        second@ == molecule_of_text(text),
    ensures
        first@.atoms == second@.atoms,
        first@.bonds == second@.bonds,
        first@.residues == second@.residues,
        first@.chains == second@.chains,
        first@.models == second@.models,
        first@.current_model == second@.current_model,
{
}

/// Whether two atoms are bonded does not depend on their order.
pub proof fn lemma_bonded_symmetric(a: AtomView, b: AtomView)
    ensures
        bonded(a, b) == bonded(b, a),
{
    let dx = a.x.units() - b.x.units();
    let dy = a.y.units() - b.y.units();
    let dz = a.z.units() - b.z.units();
    assert(dx * dx == (-dx) * (-dx)) by (nonlinear_arith);
    assert(dy * dy == (-dy) * (-dy)) by (nonlinear_arith);
    assert(dz * dz == (-dz) * (-dz)) by (nonlinear_arith);
}

/// Two atoms alone get one bond if they are less than two length units
/// apart, and none otherwise.
pub proof fn lemma_bonds_of_pair(a: AtomView, b: AtomView)
    ensures
        inferred_bonds(seq![a, b], 2) == if bonded(a, b) {
            seq![single_bond(a, b)]
        } else {
            Seq::<Bond>::empty()
        },
{
    let atoms = seq![a, b];
    reveal_with_fuel(inferred_bonds, 3);
    reveal_with_fuel(row_bonds, 3);
    assert(row_bonds(atoms, 1, 2) =~= Seq::<Bond>::empty());
    assert(row_bonds(atoms, 0, 1) =~= Seq::<Bond>::empty());
    assert(inferred_bonds(atoms, 2) =~= row_bonds(atoms, 0, 2));
    if bonded(a, b) {
        assert(row_bonds(atoms, 0, 2) =~= seq![single_bond(a, b)]);
    }
}

/// Every bond of a row joins the atom of the row to an atom behind it that
/// is less than two length units away.
pub proof fn lemma_row_bonds_sound(atoms: Seq<AtomView>, i: int, j: int, k: int)
    requires
        0 <= k < row_bonds(atoms, i, j).len(),
    ensures
        exists|t: int|
            i < t < j && bonded(atoms[i], atoms[t]) && row_bonds(atoms, i, j)[k] == single_bond(
                atoms[i],
                #[trigger] atoms[t],
            ),
    decreases j - i,
{
    if j > i + 1 {
        let earlier = row_bonds(atoms, i, j - 1);
        if k < earlier.len() {
            lemma_row_bonds_sound(atoms, i, j - 1, k);
            let t = choose|t: int|
                i < t < j - 1 && bonded(atoms[i], atoms[t]) && earlier[k] == single_bond(
                    atoms[i],
                    #[trigger] atoms[t],
                );
            assert(i < t < j && bonded(atoms[i], atoms[t]) && row_bonds(atoms, i, j)[k]
                == single_bond(atoms[i], atoms[t]));
        } else {
            assert(i < j - 1 < j && bonded(atoms[i], atoms[j - 1]) && row_bonds(atoms, i, j)[k]
                == single_bond(atoms[i], atoms[j - 1]));
        }
    }
}

/// Every atom behind the atom of a row that is less than two length units
/// away has its bond in the row.
pub proof fn lemma_row_bonds_complete(atoms: Seq<AtomView>, i: int, j: int, t: int)
    requires
        i < t < j,
        bonded(atoms[i], atoms[t]),
    ensures
        row_bonds(atoms, i, j).contains(single_bond(atoms[i], atoms[t])),
    decreases j - i,
{
    let row = row_bonds(atoms, i, j);
    if t == j - 1 {
        assert(row[row.len() - 1] == single_bond(atoms[i], atoms[t]));
    } else {
        lemma_row_bonds_complete(atoms, i, j - 1, t);
        let earlier = row_bonds(atoms, i, j - 1);
        let k = choose|k: int| 0 <= k < earlier.len() && earlier[k] == single_bond(atoms[i], atoms[t]);
        assert(row[k] == single_bond(atoms[i], atoms[t]));
    }
}

/// Every inferred bond is a single bond between two atoms, the first
/// before the second in the atom sequence, that are less than two length
/// units apart.
pub proof fn lemma_inferred_bonds_sound(atoms: Seq<AtomView>, n: int, k: int)
    requires
        0 <= n <= atoms.len(),
        0 <= k < inferred_bonds(atoms, n).len(),
    ensures
        exists|i: int, j: int|
            0 <= i < j < atoms.len() && i < n && bonded(atoms[i], atoms[j]) && inferred_bonds(
                atoms,
                n,
            )[k] == single_bond(#[trigger] atoms[i], #[trigger] atoms[j]),
    decreases n,
{
    let earlier = inferred_bonds(atoms, n - 1);
    if k < earlier.len() {
        lemma_inferred_bonds_sound(atoms, n - 1, k);
        let (i, j) = choose|i: int, j: int|
            0 <= i < j < atoms.len() && i < n - 1 && bonded(atoms[i], atoms[j]) && earlier[k]
                == single_bond(#[trigger] atoms[i], #[trigger] atoms[j]);
        assert(0 <= i < j < atoms.len() && i < n && bonded(atoms[i], atoms[j]) && inferred_bonds(
            atoms,
            n,
        )[k] == single_bond(atoms[i], atoms[j]));
    } else {
        let len = atoms.len() as int;
        lemma_row_bonds_sound(atoms, n - 1, len, k - earlier.len());
        let t = choose|t: int|
            n - 1 < t < len && bonded(atoms[n - 1], atoms[t]) && row_bonds(atoms, n - 1, len)[k
                - earlier.len()] == single_bond(atoms[n - 1], #[trigger] atoms[t]);
        assert(0 <= n - 1 < t < atoms.len() && n - 1 < n && bonded(atoms[n - 1], atoms[t])
            && inferred_bonds(atoms, n)[k] == single_bond(atoms[n - 1], atoms[t]));
    }
}

/// Every two atoms that are less than two length units apart are bonded,
/// the one that comes first in the atom sequence named first, whatever
/// models, chains or residues they belong to.
pub proof fn lemma_inferred_bonds_complete(atoms: Seq<AtomView>, n: int, i: int, j: int)
    requires
        0 <= i < j < atoms.len(),
        i < n <= atoms.len(),
        bonded(atoms[i], atoms[j]),
    ensures
        inferred_bonds(atoms, n).contains(single_bond(atoms[i], atoms[j])),
    decreases n,
{
    let all = inferred_bonds(atoms, n);
    let earlier = inferred_bonds(atoms, n - 1);
    let row = row_bonds(atoms, n - 1, atoms.len() as int);
    let bond = single_bond(atoms[i], atoms[j]);
    if i == n - 1 {
        lemma_row_bonds_complete(atoms, i, atoms.len() as int, j);
        let k = choose|k: int| 0 <= k < row.len() && row[k] == bond;
        assert(all[earlier.len() + k] == bond);
    } else {
        lemma_inferred_bonds_complete(atoms, n - 1, i, j);
        let k = choose|k: int| 0 <= k < earlier.len() && earlier[k] == bond;
        assert(all[k] == bond);
    }
}

/// Inferring bonds changes nothing but the bond sequence, and that only by
/// adding behind the bonds that are there.
pub proof fn lemma_inference_only_adds_bonds(m: MoleculeView)
    ensures
        m.with_inferred_bonds().atoms == m.atoms,
        m.with_inferred_bonds().residues == m.residues,
        m.with_inferred_bonds().chains == m.chains,
        m.with_inferred_bonds().models == m.models,
        m.with_inferred_bonds().current_model == m.current_model,
        m.bonds.is_prefix_of(m.with_inferred_bonds().bonds),
{
    assert(m.bonds =~= m.with_inferred_bonds().bonds.subrange(0, m.bonds.len() as int));
}

/// Trimming makes a text no longer.
pub proof fn lemma_trimmed_is_no_longer(s: Seq<char>)
    ensures
        trimmed(s).len() <= s.len(),
{
    lemma_trimmed_start_is_no_longer(s);
    lemma_trimmed_end_is_no_longer(trimmed_start(s));
}

/// Trimming the front makes a text no longer.
pub proof fn lemma_trimmed_start_is_no_longer(s: Seq<char>)
    ensures
        trimmed_start(s).len() <= s.len(),
    decreases s.len(),
{
    if s.len() > 0 && whitespace(s[0]) {
        lemma_trimmed_start_is_no_longer(s.drop_first());
    }
}

/// Trimming the back makes a text no longer.
pub proof fn lemma_trimmed_end_is_no_longer(s: Seq<char>)
    ensures
        trimmed_end(s).len() <= s.len(),
    decreases s.len(),
{
    if s.len() > 0 && whitespace(s.last()) {
        lemma_trimmed_end_is_no_longer(s.drop_last());
    }
}

/// The value of two digit strings written one behind the other.
pub proof fn lemma_digits_value_concat(a: Seq<char>, b: Seq<char>)
    ensures
        digits_value(a + b) == digits_value(a) * power_of_ten(b.len()) + digits_value(b),
    decreases b.len(),
{
    if b.len() == 0 {
        assert(a + b =~= a);
        assert(power_of_ten(0) == 1);
        assert(digits_value(a) * 1 == digits_value(a));
    } else {
        let front = b.drop_last();
        assert((a + b).drop_last() =~= a + front);
        assert((a + b).last() == b.last());
        lemma_digits_value_concat(a, front);
        let p = power_of_ten(front.len());
        let va = digits_value(a);
        let vf = digits_value(front);
        assert(power_of_ten(b.len()) == 10 * p);
        assert(digits_value(a + front) == va * p + vf);
        assert(digits_value(a + b) == digits_value(a + front) * 10 + digit_value(b.last()));
        assert(digits_value(b) == vf * 10 + digit_value(b.last()));
        assert((va * p + vf) * 10 == va * (10 * p) + vf * 10) by (nonlinear_arith);
    }
}

/// A digit string of `n` characters denotes a number below ten to the `n`.
pub proof fn lemma_digits_value_bound(s: Seq<char>)
    ensures
        digits_value(s) < power_of_ten(s.len()),
    decreases s.len(),
{
    if s.len() > 0 {
        lemma_digits_value_bound(s.drop_last());
    }
}

/// The last `places` digits of a number are `places` digits, and denote
/// the remainder of the number by ten to the `places`.
pub proof fn lemma_fixed_digits(n: nat, places: nat)
    ensures
        fixed_digits(n, places).len() == places,
        all_digits(fixed_digits(n, places)),
        digits_value(fixed_digits(n, places)) == n % power_of_ten(places),
    decreases places,
{
    if places > 0 {
        let front = fixed_digits(n / 10, (places - 1) as nat);
        let p = power_of_ten((places - 1) as nat);
        lemma_fixed_digits(n / 10, (places - 1) as nat);
        lemma_digit_char(n % 10);
        lemma_digits_value_push(front, digit_char(n % 10));
        lemma_power_of_ten_positive((places - 1) as nat);
        vstd::arithmetic::div_mod::lemma_mod_breakdown(n as int, 10, p as int);
        let s = fixed_digits(n, places);
        assert forall|i: int| 0 <= i < s.len() implies digit(#[trigger] s[i]) by {
            if i < front.len() {
                assert(s[i] == front[i]);
            }
        }
    } else {
        assert(n % 1 == 0);
    }
}

/// A decimal written out with all its seven fraction digits is read back
/// as itself, sign and all.
pub proof fn lemma_decimal_round_trip(d: Decimal)
    ensures
        decimal_of(fixed_notation(d, DECIMAL_PLACES as nat)) == Some(d),
{
    assert(power_of_ten(0) == 1);
    lemma_fixed_notation_round_trip(d, DECIMAL_PLACES as nat);
}

/// Keeping the first `cut` of the digits of a number and letting the next
/// digit round is rounding to the nearest: the number is divided by the
/// power of ten that the digits left out stand for, and the quotient goes
/// up by one exactly if the remainder is half the divisor or more.
pub proof fn lemma_shifted_units_round_to_nearest(digits: Seq<char>, cut: int)
    requires
        all_digits(digits),
        0 <= cut < digits.len(),
    ensures
        ({
            let n = digits_value(digits);
            let p = power_of_ten((digits.len() - cut) as nat);
            shifted_units(digits, cut) == n / p + if 2 * (n % p) >= p {
                1nat
            } else {
                0nat
            }
        }),
{
    let n = digits_value(digits);
    let kept = digits.take(cut);
    let left = digits.skip(cut);
    let tail = left.drop_first();
    let p = power_of_ten(left.len());
    let q = power_of_ten(tail.len());
    assert(kept + left =~= digits);
    assert(seq![left[0]] + tail =~= left);
    assert(left[0] == digits[cut]);
    assert(digit(digits[cut]));
    lemma_digits_value_concat(kept, left);
    lemma_digits_value_concat(seq![left[0]], tail);
    lemma_digits_value_bound(tail);
    lemma_digits_value_push(Seq::<char>::empty(), left[0]);
    assert(Seq::<char>::empty().push(left[0]) =~= seq![left[0]]);
    lemma_power_of_ten_positive(tail.len());
    assert(p == 10 * q);
    let d = digit_value(left[0]);
    let r = digits_value(left);
    assert(r == d * q + digits_value(tail));
    assert(d <= 9);
    assert(r < p) by (nonlinear_arith)
        requires
            r == d * q + digits_value(tail),
            digits_value(tail) < q,
            d <= 9,
            p == 10 * q,
    ;
    let v = digits_value(kept);
    assert(n == v * p + r);
    assert(n / p == v && n % p == r) by (nonlinear_arith)
        requires
            n == v * p + r,
            0 <= r < p,
    ;
    assert(2 * r >= p <==> d >= 5) by (nonlinear_arith)
        requires
            r == d * q + digits_value(tail),
            digits_value(tail) < q,
            p == 10 * q,
            q >= 1,
    ;
    assert(d >= 5 <==> digits[cut] >= '5');
}

/// A number in plain decimal notation has no exponent: it is a number as
/// it stands, and with at most seven fraction digits it denotes its
/// digits, taken as a whole number, with zeros for the places that are
/// not written.
pub proof fn lemma_plain_decimal(body: Seq<char>)
    requires
        decimal_notation(body),
    ensures
        !has_exponent(body),
        mantissa(body) == body,
        exponent_of(body) == 0,
        number_notation(body),
        fraction_digits(body).len() <= DECIMAL_PLACES ==> decimal_units(body) == digits_value(
            whole_digits(body) + fraction_digits(body),
        ) * power_of_ten((DECIMAL_PLACES - fraction_digits(body).len()) as nat),
{
    lemma_first_position_range(body, '.');
    let p = first_position(body, '.');
    assert forall|i: int| 0 <= i < body.len() implies #[trigger] body[i] != 'e' && body[i]
        != 'E' by {
        if i < p {
            assert(whole_digits(body)[i] == body[i]);
        } else if i > p {
            assert(fraction_digits(body)[i - p - 1] == body[i]);
        } else {
            lemma_first_position_found(body, '.');
        }
    }
    lemma_first_position(body, 'e', body.len() as int);
    lemma_first_position(body, 'E', body.len() as int);
    assert(body.take(body.len() as int) =~= body);
}

/// Whatever eight columns can spell in plain decimal notation is a
/// decimal, held without rounding: no such text has too many fraction
/// digits or is too large.
pub proof fn lemma_column_holds_any_decimal(s: Seq<char>)
    requires
        s.len() <= 8,
        decimal_notation(unsigned_part(s)),
    ensures
        decimal_of(s) is Some,
        decimal_of(s)->0.magnitude == digits_value(
            whole_digits(unsigned_part(s)) + fraction_digits(unsigned_part(s)),
        ) * power_of_ten((DECIMAL_PLACES - fraction_digits(unsigned_part(s)).len()) as nat),
{
    let body = unsigned_part(s);
    lemma_plain_decimal(body);
    lemma_first_position_range(body, '.');
    let w = whole_digits(body);
    let f = fraction_digits(body);
    assert(f.len() <= 7);
    assert(w.len() + f.len() <= 8);
    lemma_digits_value_bound(w + f);
    reveal_with_fuel(power_of_ten, 9);
    assert(power_of_ten(8) == 100_000_000);
    assert(power_of_ten(7) == 10_000_000);
    lemma_power_of_ten_grows((w + f).len(), 8);
    lemma_power_of_ten_grows((7 - f.len()) as nat, 7);
    let v = digits_value(w + f);
    let p = power_of_ten((7 - f.len()) as nat);
    assert(v * p <= 100_000_000 * 10_000_000) by (nonlinear_arith)
        requires
            0 <= v < 100_000_000,
            0 <= p <= 10_000_000,
    ;
    assert(decimal_units(body) == v * p);
}

/// A text is a decimal exactly if it is a number, with or without a sign
/// and an exponent: no number is refused for its size or its digits.
pub proof fn lemma_every_number_is_a_decimal(s: Seq<char>)
    ensures
        decimal_of(s) is Some <==> number_notation(unsigned_part(s)),
{
}

/// A coordinate column whose trimmed text is in plain decimal notation,
/// with or without a sign, holds that number exactly.
pub proof fn lemma_coordinate_columns(line: Seq<char>, from: int)
    requires
        0 <= from,
        from + 8 <= line.len(),
        decimal_notation(unsigned_part(field(line, from, from + 8))),
    ensures
        decimal_of(field(line, from, from + 8)) is Some,
        ({
            let body = unsigned_part(field(line, from, from + 8));
            decimal_of(field(line, from, from + 8))->0.magnitude == digits_value(
                whole_digits(body) + fraction_digits(body),
            ) * power_of_ten((DECIMAL_PLACES - fraction_digits(body).len()) as nat)
        }),
{
    lemma_trimmed_is_no_longer(line.subrange(from, from + 8));
    lemma_column_holds_any_decimal(field(line, from, from + 8));
}

/// Where no atom has a residue key, the key has no members and no name.
pub proof fn lemma_no_members(atoms: Seq<AtomView>, id: usize, ins_code: char)
    requires
        forall|i: int|
            0 <= i < atoms.len() ==> !((#[trigger] atoms[i]).residue_id == id && atoms[i].ins_code
                == ins_code),
    ensures
        members(atoms, id, ins_code) == Seq::<usize>::empty(),
        first_residue_name(atoms, id, ins_code) == Seq::<char>::empty(),
    decreases atoms.len(),
{
    if atoms.len() > 0 {
        let rest = atoms.drop_last();
        assert forall|i: int| 0 <= i < rest.len() implies !((#[trigger] rest[i]).residue_id == id
            && rest[i].ins_code == ins_code) by {
            assert(rest[i] == atoms[i]);
        }
        lemma_no_members(rest, id, ins_code);
        assert(!(atoms[atoms.len() - 1].residue_id == id && atoms[atoms.len() - 1].ins_code
            == ins_code));
    }
}

/// Where no atom is of a chain, the chain has no residues.
pub proof fn lemma_no_chain_members(atoms: Seq<AtomView>, chain_id: char)
    requires
        forall|i: int| 0 <= i < atoms.len() ==> (#[trigger] atoms[i]).chain_id != chain_id,
    ensures
        chain_members(atoms, chain_id) == Seq::<usize>::empty(),
    decreases atoms.len(),
{
    if atoms.len() > 0 {
        let rest = atoms.drop_last();
        assert forall|i: int| 0 <= i < rest.len() implies (#[trigger] rest[i]).chain_id
            != chain_id by {
            assert(rest[i] == atoms[i]);
        }
        lemma_no_chain_members(rest, chain_id);
        assert(atoms[atoms.len() - 1].chain_id != chain_id);
    }
}

/// Adding an atom keeps the residues and chains those of the atoms.
pub proof fn lemma_with_atom_grouped(m: MoleculeView, a: AtomView)
    requires
        m.grouped(),
    ensures
        m.with_atom(a).grouped(),
{
    let after = m.with_atom(a);
    lemma_with_atom_well_formed(m, a);
    lemma_residue_position(m.residues, a.residue_id, a.ins_code, 0);
    lemma_chain_position(m.chains, a.chain_id, 0);
    lemma_residue_listed(m.residues, a);
    lemma_chain_listed(m.chains, a);
    assert(after.atoms.drop_last() =~= m.atoms);
    assert(after.atoms.last() == a);
    let r = residue_position(m.residues, a.residue_id, a.ins_code);
    let c = chain_position(m.chains, a.chain_id);

    assert forall|i: int| 0 <= i < after.atoms.len() implies residue_position(
        after.residues,
        (#[trigger] after.atoms[i]).residue_id,
        after.atoms[i].ins_code,
    ) < after.residues.len() by {
        if i < m.atoms.len() {
            let b = m.atoms[i];
            assert(after.atoms[i] == b);
            lemma_residue_position(m.residues, b.residue_id, b.ins_code, 0);
            lemma_residue_position(after.residues, b.residue_id, b.ins_code, 0);
            let k = residue_position(m.residues, b.residue_id, b.ins_code);
            assert(after.residues[k].id == m.residues[k].id && after.residues[k].ins_code
                == m.residues[k].ins_code);
        }
    }
    assert forall|i: int| 0 <= i < after.atoms.len() implies chain_position(
        after.chains,
        (#[trigger] after.atoms[i]).chain_id,
    ) < after.chains.len() by {
        if i < m.atoms.len() {
            let b = m.atoms[i];
            assert(after.atoms[i] == b);
            lemma_chain_position(m.chains, b.chain_id, 0);
            lemma_chain_position(after.chains, b.chain_id, 0);
            let k = chain_position(m.chains, b.chain_id);
            assert(after.chains[k].id == m.chains[k].id);
        }
    }
    if r == m.residues.len() {
        assert forall|i: int| 0 <= i < m.atoms.len() implies !((#[trigger] m.atoms[i]).residue_id
            == a.residue_id && m.atoms[i].ins_code == a.ins_code) by {
            let b = m.atoms[i];
            lemma_residue_position(m.residues, b.residue_id, b.ins_code, 0);
        }
        lemma_no_members(m.atoms, a.residue_id, a.ins_code);
    }
    assert forall|k: int| 0 <= k < after.residues.len() implies {
        let x = #[trigger] after.residues[k];
        &&& x.atoms == members(after.atoms, x.id, x.ins_code)
        &&& x.atoms.len() > 0
        &&& x.name == first_residue_name(after.atoms, x.id, x.ins_code)
    } by {
        let x = after.residues[k];
        if k < m.residues.len() {
            let old = m.residues[k];
            assert(old.atoms == members(m.atoms, old.id, old.ins_code));
            if k != r {
                assert(!(old.id == a.residue_id && old.ins_code == a.ins_code)) by {
                    if r < m.residues.len() {
                        if k < r {
                            assert(!(m.residues[k].id == m.residues[r].id && m.residues[k].ins_code
                                == m.residues[r].ins_code));
                        } else {
                            assert(!(m.residues[r].id == m.residues[k].id && m.residues[r].ins_code
                                == m.residues[k].ins_code));
                        }
                    }
                }
                assert(x == old);
            }
        } else {
            assert(x.atoms =~= Seq::<usize>::empty().push(a.id));
        }
    }
    if c == m.chains.len() {
        assert forall|i: int| 0 <= i < m.atoms.len() implies (#[trigger] m.atoms[i]).chain_id
            != a.chain_id by {
            let b = m.atoms[i];
            lemma_chain_position(m.chains, b.chain_id, 0);
        }
        lemma_no_chain_members(m.atoms, a.chain_id);
    }
    assert forall|k: int| 0 <= k < after.chains.len() implies {
        let x = #[trigger] after.chains[k];
        &&& x.residues == chain_members(after.atoms, x.id)
        &&& x.residues.len() > 0
    } by {
        let x = after.chains[k];
        if k < m.chains.len() {
            let old = m.chains[k];
            assert(old.residues == chain_members(m.atoms, old.id));
            if k != c {
                assert(old.id != a.chain_id) by {
                    if c < m.chains.len() {
                        if k < c {
                            assert(m.chains[k].id != m.chains[c].id);
                        } else {
                            assert(m.chains[c].id != m.chains[k].id);
                        }
                    }
                }
                assert(x == old);
            }
        } else {
            assert(x.residues =~= Seq::<usize>::empty().push(a.residue_id));
            assert(!Seq::<usize>::empty().contains(a.residue_id));
        }
    }
}

/// Reading a line keeps the residues and chains those of the atoms.
pub proof fn lemma_after_line_grouped(m: MoleculeView, line: Seq<char>)
    requires
        m.grouped(),
    ensures
        after_line(m, line).grouped(),
{
    match atom_of_line(line) {
        Some(a) => lemma_with_atom_grouped(m, a),
        None => {},
    }
}

/// Reading lines keeps the residues and chains those of the atoms.
pub proof fn lemma_after_lines_grouped(m: MoleculeView, lines: Seq<Seq<char>>)
    requires
        m.grouped(),
    ensures
        after_lines(m, lines).grouped(),
    decreases lines.len(),
{
    if lines.len() > 0 {
        lemma_after_lines_grouped(m, lines.drop_last());
        lemma_after_line_grouped(after_lines(m, lines.drop_last()), lines.last());
    }
}

/// In the molecule that a text builds, the residues and chains are those
/// of the atoms: each atom is a member of the residue with its sequence
/// number and insertion code, and of no other.
pub proof fn lemma_molecule_of_text_grouped(text: Seq<char>)
    ensures
        molecule_of_text(text).grouped(),
{
    lemma_after_lines_grouped(MoleculeView::empty(), crate::text::lines_of(text));
}

} // verus!
