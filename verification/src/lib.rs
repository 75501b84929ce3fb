//! A reader for atomic-coordinate records in the fixed-column PDB layout.
//!
//! Text lines are classified by their record tag and decoded column by
//! column into atoms; atoms are gathered into a [`Molecule`] together with
//! the residues, chains and models they belong to, and bonds are inferred
//! from the distances between atoms once the whole input has been read.
//!
//! Coordinates, occupancies and temperature factors are held as exact
//! decimals ([`Decimal`]), so every contract in this crate is stated over
//! integers and sequences of characters.

pub mod bonds;
pub mod decimal;
pub mod element;
pub mod format;
pub mod parser;
pub mod round_trip;
pub mod structure;
pub mod text;
pub mod theorems;
pub mod writer;

pub use decimal::{parse_decimal, Decimal, DECIMAL_MAX, DECIMAL_ONE, DECIMAL_PLACES};
pub use element::Element;
pub use parser::{infer_element_from_atom_name, PdbParser, RecordKind};
pub use structure::{Atom, Bond, BondOrder, Chain, Model, Molecule, Residue};
pub use text::{is_whitespace, parse_usize, to_chars, trim};
pub use writer::{get_3dmol_bonds, prepare_for_3dmol, BondLink};
