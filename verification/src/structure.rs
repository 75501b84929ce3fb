//! Atoms, bonds, residues, chains and models, and the molecule that owns
//! them.
//!
//! Each record type has a view that holds its text as sequences of
//! characters. The operations of [`Molecule`] are specified as functions on
//! [`MoleculeView`], so that what a sequence of operations builds can be
//! stated and reasoned about without running it.

use vstd::prelude::*;
use crate::bonds::{inferred_bonds, lemma_row_bonds_one_more, near, row_bonds};
use crate::decimal::Decimal;
use crate::element::Element;
use crate::theorems::lemma_with_atom_well_formed;

verus! {

/// One atom of a record line.
#[derive(Debug, Clone)]
pub struct Atom {
    /// The serial number as the line gives it; not checked for uniqueness.
    pub id: usize,
    pub name: String,
    pub element: Element,
    /// The x, y and z coordinates.
    pub position: [Decimal; 3],
    pub residue_id: usize,
    pub chain_id: char,
    /// The temperature factor.
    pub b_factor: Decimal,
    pub occupancy: Decimal,
    pub residue_name: String,
    /// The alternate-location indicator.
    pub alt_loc: char,
    /// The insertion code.
    pub ins_code: char,
    /// Whether the atom came from a `HETATM` record.
    pub is_hetatm: bool,
}

/// What an [`Atom`] holds, as mathematical values.
pub struct AtomView {
    pub id: usize,
    pub name: Seq<char>,
    pub element: Element,
    pub x: Decimal,
    pub y: Decimal,
    pub z: Decimal,
    pub residue_id: usize,
    pub chain_id: char,
    pub b_factor: Decimal,
    pub occupancy: Decimal,
    pub residue_name: Seq<char>,
    pub alt_loc: char,
    pub ins_code: char,
    pub is_hetatm: bool,
}

impl View for Atom {
    type V = AtomView;

    open spec fn view(&self) -> AtomView {
        AtomView {
            id: self.id,
            name: self.name@,
            element: self.element,
            x: self.position@[0],
            y: self.position@[1],
            z: self.position@[2],
            residue_id: self.residue_id,
            chain_id: self.chain_id,
            b_factor: self.b_factor,
            occupancy: self.occupancy,
            residue_name: self.residue_name@,
            alt_loc: self.alt_loc,
            ins_code: self.ins_code,
            is_hetatm: self.is_hetatm,
        }
    }
}

/// The multiplicity of a bond.
#[derive(Debug, Clone, Copy, PartialEq, Eq, Structural)]
pub enum BondOrder {
    Single,
    Double,
    Triple,
    Aromatic,
}

/// A bond between two atoms, named by their serial numbers.
#[derive(Debug, Clone, Copy, PartialEq, Eq, Structural)]
pub struct Bond {
    pub atom1_id: usize,
    pub atom2_id: usize,
    pub order: BondOrder,
}

/// The atoms that share a residue sequence number and an insertion code.
#[derive(Debug, Clone)]
pub struct Residue {
    pub id: usize,
    /// The residue name of the first atom that was added under this key.
    pub name: String,
    /// The serial numbers of the member atoms, in the order they were added.
    pub atoms: Vec<usize>,
    pub ins_code: char,
}

/// What a [`Residue`] holds, as mathematical values.
pub struct ResidueView {
    pub id: usize,
    pub name: Seq<char>,
    pub atoms: Seq<usize>,
    pub ins_code: char,
}

impl View for Residue {
    type V = ResidueView;

    open spec fn view(&self) -> ResidueView {
        ResidueView { id: self.id, name: self.name@, atoms: self.atoms@, ins_code: self.ins_code }
    }
}

/// The residues that were seen under one chain identifier.
#[derive(Debug, Clone)]
pub struct Chain {
    pub id: char,
    /// Residue sequence numbers in first-seen order, each at most once.
    pub residues: Vec<usize>,
}

/// What a [`Chain`] holds, as mathematical values.
pub struct ChainView {
    pub id: char,
    pub residues: Seq<usize>,
}

impl View for Chain {
    type V = ChainView;

    open spec fn view(&self) -> ChainView {
        ChainView { id: self.id, residues: self.residues@ }
    }
}

/// One conformer: the atoms that were added while it was open.
#[derive(Debug, Clone)]
pub struct Model {
    pub id: usize,
    pub atoms: Vec<usize>,
}

/// What a [`Model`] holds, as mathematical values.
pub struct ModelView {
    pub id: usize,
    pub atoms: Seq<usize>,
}

impl View for Model {
    type V = ModelView;

    open spec fn view(&self) -> ModelView {
        ModelView { id: self.id, atoms: self.atoms@ }
    }
}

/// A molecule under construction: atoms and bonds in the order they were
/// added, residues and chains in the order their keys were first seen,
/// models in the order they were opened, and the position in `models` of
/// the model that is open, if one is.
#[derive(Debug, Clone)]
pub struct Molecule {
    pub atoms: Vec<Atom>,
    pub bonds: Vec<Bond>,
    pub residues: Vec<Residue>,
    pub chains: Vec<Chain>,
    pub models: Vec<Model>,
    pub current_model: Option<usize>,
}

/// What a [`Molecule`] holds, as mathematical values.
pub struct MoleculeView {
    pub atoms: Seq<AtomView>,
    pub bonds: Seq<Bond>,
    pub residues: Seq<ResidueView>,
    pub chains: Seq<ChainView>,
    pub models: Seq<ModelView>,
    pub current_model: Option<usize>,
}

/// The views of a sequence of atoms.
pub open spec fn atom_views(atoms: Seq<Atom>) -> Seq<AtomView> {
    Seq::new(atoms.len(), |i: int| atoms[i]@)
}

/// The views of a sequence of residues.
pub open spec fn residue_views(residues: Seq<Residue>) -> Seq<ResidueView> {
    Seq::new(residues.len(), |i: int| residues[i]@)
}

/// The views of a sequence of chains.
pub open spec fn chain_views(chains: Seq<Chain>) -> Seq<ChainView> {
    Seq::new(chains.len(), |i: int| chains[i]@)
}

/// The views of a sequence of models.
pub open spec fn model_views(models: Seq<Model>) -> Seq<ModelView> {
    Seq::new(models.len(), |i: int| models[i]@)
}

impl View for Molecule {
    type V = MoleculeView;

    open spec fn view(&self) -> MoleculeView {
        MoleculeView {
            atoms: atom_views(self.atoms@),
            bonds: self.bonds@,
            residues: residue_views(self.residues@),
            chains: chain_views(self.chains@),
            models: model_views(self.models@),
            current_model: self.current_model,
        }
    }
}

/// The position at or behind `from` of the first residue with the key
/// (`id`, `ins_code`); the length of `residues` if there is none.
pub open spec fn residue_position_from(
    residues: Seq<ResidueView>,
    id: usize,
    ins_code: char,
    from: int,
) -> int
    decreases residues.len() - from,
{
    if from < 0 || from >= residues.len() {
        residues.len() as int
    } else if residues[from].id == id && residues[from].ins_code == ins_code {
        from
    } else {
        residue_position_from(residues, id, ins_code, from + 1)
    }
}

/// The position of the first residue with the key (`id`, `ins_code`); the
/// length of `residues` if there is none.
pub open spec fn residue_position(residues: Seq<ResidueView>, id: usize, ins_code: char) -> int {
    residue_position_from(residues, id, ins_code, 0)
}

/// The position at or behind `from` of the first chain named `id`; the
/// length of `chains` if there is none.
pub open spec fn chain_position_from(chains: Seq<ChainView>, id: char, from: int) -> int
    decreases chains.len() - from,
{
    if from < 0 || from >= chains.len() {
        chains.len() as int
    } else if chains[from].id == id {
        from
    } else {
        chain_position_from(chains, id, from + 1)
    }
}

/// The position of the first chain named `id`; the length of `chains` if
/// there is none.
pub open spec fn chain_position(chains: Seq<ChainView>, id: char) -> int {
    chain_position_from(chains, id, 0)
}

/// The residues after an atom was added: the atom's serial number joins
/// the residue with its sequence number and insertion code, whatever its
/// chain; a residue that is new takes the atom's residue name.
pub open spec fn residues_with(residues: Seq<ResidueView>, a: AtomView) -> Seq<ResidueView> {
    let k = residue_position(residues, a.residue_id, a.ins_code);
    if k < residues.len() {
        residues.update(k, ResidueView { atoms: residues[k].atoms.push(a.id), ..residues[k] })
    } else {
        residues.push(
            ResidueView {
                id: a.residue_id,
                name: a.residue_name,
                atoms: seq![a.id],
                ins_code: a.ins_code,
            },
        )
    }
}

/// A chain's residue list after `residue_id` was seen in it.
pub open spec fn residue_noted(residues: Seq<usize>, residue_id: usize) -> Seq<usize> {
    if residues.contains(residue_id) {
        residues
    } else {
        residues.push(residue_id)
    }
}

/// The chains after an atom was added: the atom's residue sequence number
/// is noted in the chain with its chain identifier, once.
pub open spec fn chains_with(chains: Seq<ChainView>, a: AtomView) -> Seq<ChainView> {
    let k = chain_position(chains, a.chain_id);
    if k < chains.len() {
        chains.update(
            k,
            ChainView { residues: residue_noted(chains[k].residues, a.residue_id), ..chains[k] },
        )
    } else {
        chains.push(ChainView { id: a.chain_id, residues: seq![a.residue_id] })
    }
}

/// The models after an atom was added: its serial number joins the open
/// model, and no other.
pub open spec fn models_with(models: Seq<ModelView>, open: Option<usize>, atom_id: usize) -> Seq<
    ModelView,
> {
    match open {
        Some(k) => if k < models.len() {
            models.update(k as int, ModelView { atoms: models[k as int].atoms.push(atom_id), ..models[k as int] })
        } else {
            models
        },
        None => models,
    }
}

/// The serial numbers of the atoms with the residue key (`id`,
/// `ins_code`), in the order of the atoms.
pub open spec fn members(atoms: Seq<AtomView>, id: usize, ins_code: char) -> Seq<usize>
    decreases atoms.len(),
{
    if atoms.len() == 0 {
        Seq::empty()
    } else if atoms.last().residue_id == id && atoms.last().ins_code == ins_code {
        members(atoms.drop_last(), id, ins_code).push(atoms.last().id)
    } else {
        members(atoms.drop_last(), id, ins_code)
    }
}

/// The residue name of the first atom with the residue key (`id`,
/// `ins_code`); empty if there is no such atom.
pub open spec fn first_residue_name(atoms: Seq<AtomView>, id: usize, ins_code: char) -> Seq<char>
    decreases atoms.len(),
{
    if atoms.len() == 0 {
        Seq::empty()
    } else if members(atoms.drop_last(), id, ins_code).len() > 0 {
        first_residue_name(atoms.drop_last(), id, ins_code)
    } else if atoms.last().residue_id == id && atoms.last().ins_code == ins_code {
        atoms.last().residue_name
    } else {
        Seq::empty()
    }
}

/// The residue sequence numbers of the atoms of the chain `chain_id`, each
/// once, in the order in which they are first met.
pub open spec fn chain_members(atoms: Seq<AtomView>, chain_id: char) -> Seq<usize>
    decreases atoms.len(),
{
    if atoms.len() == 0 {
        Seq::empty()
    } else if atoms.last().chain_id == chain_id {
        residue_noted(chain_members(atoms.drop_last(), chain_id), atoms.last().residue_id)
    } else {
        chain_members(atoms.drop_last(), chain_id)
    }
}

impl MoleculeView {
    /// The molecule that holds nothing.
    pub open spec fn empty() -> MoleculeView {
        MoleculeView {
            atoms: Seq::empty(),
            bonds: Seq::empty(),
            residues: Seq::empty(),
            chains: Seq::empty(),
            models: Seq::empty(),
            current_model: None,
        }
    }

    /// The molecule after `a` was added to it.
    pub open spec fn with_atom(self, a: AtomView) -> MoleculeView {
        MoleculeView {
            atoms: self.atoms.push(a),
            residues: residues_with(self.residues, a),
            chains: chains_with(self.chains, a),
            models: models_with(self.models, self.current_model, a.id),
            ..self
        }
    }

    /// The molecule after a bond was added to it.
    pub open spec fn with_bond(self, atom1_id: usize, atom2_id: usize, order: BondOrder) -> MoleculeView {
        MoleculeView { bonds: self.bonds.push(Bond { atom1_id, atom2_id, order }), ..self }
    }

    /// The molecule after a model with serial number `id` was opened.
    pub open spec fn with_model_opened(self, id: usize) -> MoleculeView {
        MoleculeView {
            models: self.models.push(ModelView { id, atoms: Seq::empty() }),
            current_model: Some(self.models.len() as usize),
            ..self
        }
    }

    /// The molecule after the open model, if any, was closed.
    pub open spec fn with_model_closed(self) -> MoleculeView {
        MoleculeView { current_model: None, ..self }
    }

    /// The molecule after the bonds between all its atoms were inferred.
    pub open spec fn with_inferred_bonds(self) -> MoleculeView {
        MoleculeView { bonds: self.bonds + inferred_bonds(self.atoms, self.atoms.len() as int), ..self }
    }

    /// No two residues share a key, no two chains share an identifier, no
    /// chain lists a residue twice, and the open model, if any, exists.
    pub open spec fn well_formed(self) -> bool {
        &&& forall|i: int, j: int|
            0 <= i < j < self.residues.len() ==> !(#[trigger] self.residues[i].id
                == #[trigger] self.residues[j].id && self.residues[i].ins_code
                == self.residues[j].ins_code)
        &&& forall|i: int, j: int|
            0 <= i < j < self.chains.len() ==> #[trigger] self.chains[i].id
                != #[trigger] self.chains[j].id
        &&& forall|i: int|
            0 <= i < self.chains.len() ==> (#[trigger] self.chains[i]).residues.no_duplicates()
        &&& self.current_model matches Some(k) ==> k < self.models.len()
    }

    /// The residues and chains are those of the atoms: the molecule is
    /// well formed, every atom has its residue and its chain, every
    /// residue holds the serial numbers of the atoms with its key, in
    /// their order, and is named as the first of them, and every chain
    /// lists the residues of its atoms, each once.
    pub open spec fn grouped(self) -> bool {
        &&& self.well_formed()
        &&& forall|i: int|
            0 <= i < self.atoms.len() ==> residue_position(
                self.residues,
                (#[trigger] self.atoms[i]).residue_id,
                self.atoms[i].ins_code,
            ) < self.residues.len()
        &&& forall|i: int|
            0 <= i < self.atoms.len() ==> chain_position(
                self.chains,
                (#[trigger] self.atoms[i]).chain_id,
            ) < self.chains.len()
        &&& forall|k: int|
            0 <= k < self.residues.len() ==> {
                let r = #[trigger] self.residues[k];
                &&& r.atoms == members(self.atoms, r.id, r.ins_code)
                &&& r.atoms.len() > 0
                &&& r.name == first_residue_name(self.atoms, r.id, r.ins_code)
            }
        &&& forall|k: int|
            0 <= k < self.chains.len() ==> {
                let c = #[trigger] self.chains[k];
                &&& c.residues == chain_members(self.atoms, c.id)
                &&& c.residues.len() > 0
            }
    }
}

impl Molecule {
    /// A molecule that holds nothing.
    pub fn new() -> (m: Self)
        ensures
            m@ == MoleculeView::empty(),
            m@.well_formed(),
    {
        let m = Molecule {
            atoms: Vec::new(),
            bonds: Vec::new(),
            residues: Vec::new(),
            chains: Vec::new(),
            models: Vec::new(),
            current_model: None,
        };
        assert(m@.atoms =~= Seq::empty());
        assert(m@.residues =~= Seq::empty());
        assert(m@.chains =~= Seq::empty());
        assert(m@.models =~= Seq::empty());
        m
    }

    /// The position of the first residue with the key (`id`, `ins_code`),
    /// or the number of residues if there is none.
    pub fn find_residue(&self, id: usize, ins_code: char) -> (k: usize)
        ensures
            k == residue_position(self@.residues, id, ins_code),
            k <= self.residues.len(),
    {
        let mut k: usize = 0;
        while k < self.residues.len()
            invariant
                k <= self.residues.len(),
                residue_position(self@.residues, id, ins_code) == residue_position_from(
                    self@.residues,
                    id,
                    ins_code,
                    k as int,
                ),
            decreases self.residues.len() - k,
        {
            if self.residues[k].id == id && self.residues[k].ins_code == ins_code {
                return k;
            }
            k += 1;
        }
        k
    }

    /// The position of the first chain named `id`, or the number of chains
    /// if there is none.
    pub fn find_chain(&self, id: char) -> (k: usize)
        ensures
            k == chain_position(self@.chains, id),
            k <= self.chains.len(),
    {
        let mut k: usize = 0;
        while k < self.chains.len()
            invariant
                k <= self.chains.len(),
                chain_position(self@.chains, id) == chain_position_from(self@.chains, id, k as int),
            decreases self.chains.len() - k,
        {
            if self.chains[k].id == id {
                return k;
            }
            k += 1;
        }
        k
    }

    /// The residue with the key (`id`, `ins_code`), if there is one.
    pub fn residue(&self, id: usize, ins_code: char) -> (r: Option<&Residue>)
        ensures
            match r {
                Some(found) => {
                    let k = residue_position(self@.residues, id, ins_code);
                    0 <= k < self.residues.len() && *found == self.residues[k]
                },
                None => residue_position(self@.residues, id, ins_code) == self.residues.len(),
            },
    {
        let k: usize = self.find_residue(id, ins_code);
        if k < self.residues.len() {
            Some(&self.residues[k])
        } else {
            None
        }
    }

    /// The chain named `id`, if there is one.
    pub fn chain(&self, id: char) -> (r: Option<&Chain>)
        ensures
            match r {
                Some(found) => {
                    let k = chain_position(self@.chains, id);
                    0 <= k < self.chains.len() && *found == self.chains[k]
                },
                None => chain_position(self@.chains, id) == self.chains.len(),
            },
    {
        let k: usize = self.find_chain(id);
        if k < self.chains.len() {
            Some(&self.chains[k])
        } else {
            None
        }
    }

    /// Adds an atom: it joins the atom sequence, the residue with its
    /// sequence number and insertion code, the chain with its identifier,
    /// and the open model if there is one. Returns the atom's serial number.
    pub fn add_atom(&mut self, atom: Atom) -> (id: usize)
        ensures
            final(self)@ == old(self)@.with_atom(atom@),
            id == atom.id,
            old(self)@.well_formed() ==> final(self)@.well_formed(),
    {
        proof {
            if old(self)@.well_formed() {
                lemma_with_atom_well_formed(old(self)@, atom@);
            }
        }
        let atom_id: usize = atom.id;
        let residue_id: usize = atom.residue_id;
        let ins_code: char = atom.ins_code;
        let chain_id: char = atom.chain_id;
        let ghost a = atom@;

        let r: usize = self.find_residue(residue_id, ins_code);
        if r < self.residues.len() {
            self.residues[r].atoms.push(atom_id);
        } else {
            let mut atoms: Vec<usize> = Vec::new();
            atoms.push(atom_id);
            let name: String = atom.residue_name.clone();
            self.residues.push(Residue { id: residue_id, name, atoms, ins_code });
        }
        assert(self@.residues =~= residues_with(old(self)@.residues, a));

        let c: usize = self.find_chain(chain_id);
        if c < self.chains.len() {
            if !contains_id(&self.chains[c].residues, residue_id) {
                self.chains[c].residues.push(residue_id);
            }
        } else {
            let mut residues: Vec<usize> = Vec::new();
            residues.push(residue_id);
            self.chains.push(Chain { id: chain_id, residues });
        }
        assert(self@.chains =~= chains_with(old(self)@.chains, a));

        match self.current_model {
            Some(k) => {
                if k < self.models.len() {
                    self.models[k].atoms.push(atom_id);
                }
            },
            None => {},
        }
        assert(self@.models =~= models_with(old(self)@.models, old(self)@.current_model, a.id));

        self.atoms.push(atom);
        assert(self@.atoms =~= old(self)@.atoms.push(a));
        atom_id
    }

    /// Adds a bond. Nothing is checked: the serial numbers need not belong
    /// to atoms, may be equal, and the bond may be there already.
    pub fn add_bond(&mut self, atom1_id: usize, atom2_id: usize, order: BondOrder)
        ensures
            final(self)@ == old(self)@.with_bond(atom1_id, atom2_id, order),
            old(self)@.well_formed() ==> final(self)@.well_formed(),
    {
        self.bonds.push(Bond { atom1_id, atom2_id, order });
    }

    /// Opens a model with serial number `model_id`; atoms added from now on
    /// join it. A model that was open is thereby closed, and a serial number
    /// that was used before gives a second model.
    pub fn start_model(&mut self, model_id: usize)
        ensures
            final(self)@ == old(self)@.with_model_opened(model_id),
            old(self)@.well_formed() ==> final(self)@.well_formed(),
    {
        let k: usize = self.models.len();
        self.models.push(Model { id: model_id, atoms: Vec::new() });
        self.current_model = Some(k);
        assert(self@.models =~= old(self)@.models.push(
            ModelView { id: model_id, atoms: Seq::empty() },
        ));
    }

    /// Closes the open model; does nothing if none is open.
    pub fn end_model(&mut self)
        ensures
            final(self)@ == old(self)@.with_model_closed(),
            old(self)@.well_formed() ==> final(self)@.well_formed(),
    {
        self.current_model = None;
    }

    /// Infers bonds: for every pair of atoms, in the order of the atom
    /// sequence, a single bond is added when the two are less than two
    /// length units apart. Models are not told apart, and nothing but the
    /// bond sequence changes.
    pub fn calculate_bonds(&mut self)
        ensures
            final(self)@ == old(self)@.with_inferred_bonds(),
            old(self)@.well_formed() ==> final(self)@.well_formed(),
    {
        let n: usize = self.atoms.len();
        let ghost atoms = self@.atoms;
        let ghost before = self@.bonds;
        let mut i: usize = 0;
        while i < n
            invariant
                i <= n,
                n == self.atoms.len(),
                self@.atoms == atoms,
                self@.residues == old(self)@.residues,
                self@.chains == old(self)@.chains,
                self@.models == old(self)@.models,
                self@.current_model == old(self)@.current_model,
                atoms == old(self)@.atoms,
                before == old(self)@.bonds,
                self@.bonds == before + inferred_bonds(atoms, i as int),
            decreases n - i,
        {
            let mut j: usize = i + 1;
            while j < n
                invariant
                    i < j <= n,
                    n == self.atoms.len(),
                    self@.atoms == atoms,
                    self@.residues == old(self)@.residues,
                    self@.chains == old(self)@.chains,
                    self@.models == old(self)@.models,
                    self@.current_model == old(self)@.current_model,
                    self@.bonds == before + inferred_bonds(atoms, i as int) + row_bonds(
                        atoms,
                        i as int,
                        j as int,
                    ),
                decreases n - j,
            {
                proof {
                    lemma_row_bonds_one_more(atoms, i as int, j as int);
                }
                if near(&self.atoms[i].position, &self.atoms[j].position) {
                    let bond = Bond {
                        atom1_id: self.atoms[i].id,
                        atom2_id: self.atoms[j].id,
                        order: BondOrder::Single,
                    };
                    self.bonds.push(bond);
                    assert(self@.bonds =~= before + inferred_bonds(atoms, i as int) + row_bonds(
                        atoms,
                        i as int,
                        j + 1,
                    ));
                }
                j += 1;
            }
            assert(self@.bonds =~= before + inferred_bonds(atoms, i + 1));
            i += 1;
        }
    }
}

/// Whether `ids` holds `id`.
pub fn contains_id(ids: &Vec<usize>, id: usize) -> (r: bool)
    ensures
        r == ids@.contains(id),
{
    let mut k: usize = 0;
    while k < ids.len()
        invariant
            k <= ids.len(),
            forall|i: int| 0 <= i < k ==> ids@[i] != id,
        decreases ids.len() - k,
    {
        if ids[k] == id {
            return true;
        }
        k += 1;
    }
    false
}

} // verus!
