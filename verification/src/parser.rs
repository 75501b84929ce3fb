//! The line parser: record tags, fixed columns, and the molecule that a
//! text builds.

use vstd::prelude::*;
use crate::decimal::{decimal_of, parse_decimal, Decimal, DECIMAL_ONE};
use crate::element::{element_of_symbol, symbol_element, Element};
use crate::structure::{Atom, AtomView, Molecule, MoleculeView};
use crate::theorems::lemma_after_lines_grouped;
use crate::text::{
    has_prefix, is_whitespace, lemma_first_position, lines_of, parse_usize, span, string_of,
    to_chars, trim, trimmed, usize_of, whitespace, without_return,
};

verus! {

/// What a line is, by its first six characters.
#[derive(Debug, Clone, Copy, PartialEq, Eq, Structural)]
pub enum RecordKind {
    /// `MODEL `: a model is opened.
    ModelOpen,
    /// `ENDMDL`: the open model is closed.
    ModelClose,
    /// `ATOM  `: an atom of a standard residue.
    Atom,
    /// `HETATM`: an atom of anything else.
    HetAtom,
    /// Any other line; it is passed over.
    Other,
}

/// The tag of a model-open record.
pub open spec fn model_tag() -> Seq<char> {
    seq!['M', 'O', 'D', 'E', 'L', ' ']
}

/// The tag of a model-close record.
pub open spec fn end_model_tag() -> Seq<char> {
    seq!['E', 'N', 'D', 'M', 'D', 'L']
}

/// The tag of an atom record.
pub open spec fn atom_tag() -> Seq<char> {
    seq!['A', 'T', 'O', 'M', ' ', ' ']
}

/// The tag of a heteroatom record.
pub open spec fn hetatm_tag() -> Seq<char> {
    seq!['H', 'E', 'T', 'A', 'T', 'M']
}

/// The kind of record that `line` is: decided by its first six characters
/// as they stand, blanks included; a shorter line is of no kind.
pub open spec fn record_kind(line: Seq<char>) -> RecordKind {
    if model_tag().is_prefix_of(line) {
        RecordKind::ModelOpen
    } else if end_model_tag().is_prefix_of(line) {
        RecordKind::ModelClose
    } else if atom_tag().is_prefix_of(line) {
        RecordKind::Atom
    } else if hetatm_tag().is_prefix_of(line) {
        RecordKind::HetAtom
    } else {
        RecordKind::Other
    }
}

/// The trimmed text in the columns `from + 1` to `to` of `line`.
pub open spec fn field(line: Seq<char>, from: int, to: int) -> Seq<char> {
    trimmed(line.subrange(from, to))
}

/// The serial number of a model-open record: the unsigned number in
/// columns 11 to 14. A shorter line has none.
pub open spec fn model_serial(line: Seq<char>) -> Option<usize> {
    if line.len() < 14 {
        None
    } else {
        usize_of(field(line, 10, 14))
    }
}

/// The element that the first letter of an atom name stands for.
pub open spec fn initial_element(c: char) -> Element {
    if c == 'H' {
        Element::H
    } else if c == 'C' {
        Element::C
    } else if c == 'N' {
        Element::N
    } else if c == 'O' {
        Element::O
    } else if c == 'S' {
        Element::S
    } else if c == 'P' {
        Element::P
    } else if c == 'F' {
        Element::F
    } else if c == 'K' {
        Element::K
    } else if c == 'B' {
        Element::B
    } else {
        Element::Unknown
    }
}

/// The element of the common atom names that are settled by name: the
/// alpha to zeta carbons, and the nitrogens, oxygens and sulfurs of side
/// chains and backbone.
pub open spec fn named_element(name: Seq<char>) -> Option<Element> {
    if name == seq!['C', 'A'] || name == seq!['C', 'B'] || name == seq!['C', 'G'] || name
        == seq!['C', 'D'] || name == seq!['C', 'E'] || name == seq!['C', 'Z'] {
        Some(Element::C)
    } else if name == seq!['N'] || name == seq!['N', 'Z'] || name == seq!['N', 'H', '1'] || name
        == seq!['N', 'H', '2'] {
        Some(Element::N)
    } else if name == seq!['O'] || name == seq!['O', 'G'] || name == seq!['O', 'D', '1'] || name
        == seq!['O', 'E', '1'] || name == seq!['O', 'D', '2'] || name == seq!['O', 'E', '2'] {
        Some(Element::O)
    } else if name == seq!['S', 'D'] || name == seq!['S', 'G'] {
        Some(Element::S)
    } else {
        None
    }
}

/// The element of an atom with the trimmed name `name`: settled by the
/// name where it is one of the common ones, else by its first letter; an
/// empty name tells nothing.
pub open spec fn name_element(name: Seq<char>) -> Element {
    if name.len() == 0 {
        Element::Unknown
    } else {
        match named_element(name) {
            Some(e) => e,
            None => initial_element(name[0]),
        }
    }
}

/// The element of an atom with the name `atom_name`, white space around it
/// ignored.
pub open spec fn inferred_element(atom_name: Seq<char>) -> Element {
    name_element(trimmed(atom_name))
}

/// Every atom name that is settled by name is settled as its first letter
/// would settle it: the element of a name is that of its first letter.
pub proof fn lemma_name_element_is_initial(name: Seq<char>)
    ensures
        name_element(name) == if name.len() == 0 {
            Element::Unknown
        } else {
            initial_element(name[0])
        },
{
}

/// The element of an atom record: the symbol in columns 77 and 78 where
/// the line reaches them and they are not blank, else what the atom name
/// tells.
pub open spec fn line_element(line: Seq<char>) -> Element {
    if line.len() >= 78 && field(line, 76, 78).len() > 0 {
        symbol_element(field(line, 76, 78))
    } else {
        name_element(field(line, 12, 16))
    }
}

/// The chain identifier of an atom record: the character in column 22, or
/// `A` where that column is blank.
pub open spec fn line_chain(line: Seq<char>) -> char {
    if whitespace(line[21]) {
        'A'
    } else {
        line[21]
    }
}

/// The decimal in the columns `from + 1` to `to` of `line`, or `default`
/// where the line does not reach column `to` or the columns hold no
/// decimal.
pub open spec fn decimal_or(line: Seq<char>, from: int, to: int, default: Decimal) -> Decimal {
    if line.len() >= to {
        match decimal_of(field(line, from, to)) {
            Some(d) => d,
            None => default,
        }
    } else {
        default
    }
}

/// Whether `line` is well formed as an atom record: it reaches column 54,
/// its serial number (columns 7 to 11) and residue sequence number (23 to
/// 26) are unsigned numbers, and its coordinates (31 to 38, 39 to 46, 47
/// to 54) are numbers, with or without a sign, a point and an exponent.
pub open spec fn well_formed_atom_line(line: Seq<char>) -> bool {
    &&& line.len() >= 54
    &&& usize_of(field(line, 6, 11)) is Some
    &&& usize_of(field(line, 22, 26)) is Some
    &&& decimal_of(field(line, 30, 38)) is Some
    &&& decimal_of(field(line, 38, 46)) is Some
    &&& decimal_of(field(line, 46, 54)) is Some
}

/// The atom that the line describes, read from its fixed columns.
///
/// A line that is not well formed describes no atom. The name (columns 13
/// to 16) and the residue name (18 to 20) are taken trimmed and may be
/// empty; the alternate location (17) and the insertion code (27) are
/// taken as they stand, a blank for none. The occupancy (55 to 60)
/// defaults to 1 and the temperature factor (61 to 66) to 0. The atom
/// counts as a heteroatom exactly if the line is tagged `HETATM`.
pub open spec fn atom_of_line(line: Seq<char>) -> Option<AtomView> {
    if line.len() < 54 {
        None
    } else {
        match (
            usize_of(field(line, 6, 11)),
            usize_of(field(line, 22, 26)),
            decimal_of(field(line, 30, 38)),
            decimal_of(field(line, 38, 46)),
            decimal_of(field(line, 46, 54)),
        ) {
            (Some(id), Some(residue_id), Some(x), Some(y), Some(z)) => Some(
                AtomView {
                    id,
                    name: field(line, 12, 16),
                    element: line_element(line),
                    x,
                    y,
                    z,
                    residue_id,
                    chain_id: line_chain(line),
                    b_factor: decimal_or(line, 60, 66, Decimal { negative: false, magnitude: 0 }),
                    occupancy: decimal_or(
                        line,
                        54,
                        60,
                        Decimal { negative: false, magnitude: DECIMAL_ONE },
                    ),
                    residue_name: field(line, 17, 20),
                    alt_loc: line[16],
                    ins_code: line[26],
                    is_hetatm: hetatm_tag().is_prefix_of(line),
                },
            ),
            _ => None,
        }
    }
}

/// The molecule after one more line was read: a model-open record with a
/// serial number opens a model, a model-close record closes the open one,
/// an atom or heteroatom record that describes an atom adds it, and every
/// other line leaves the molecule as it is.
pub open spec fn after_line(m: MoleculeView, line: Seq<char>) -> MoleculeView {
    match record_kind(line) {
        RecordKind::ModelOpen => match model_serial(line) {
            Some(id) => m.with_model_opened(id),
            None => m,
        },
        RecordKind::ModelClose => m.with_model_closed(),
        RecordKind::Atom | RecordKind::HetAtom => match atom_of_line(line) {
            Some(a) => m.with_atom(a),
            None => m,
        },
        RecordKind::Other => m,
    }
}

/// The molecule after the lines were read, one after the other.
pub open spec fn after_lines(m: MoleculeView, lines: Seq<Seq<char>>) -> MoleculeView
    decreases lines.len(),
{
    if lines.len() == 0 {
        m
    } else {
        after_line(after_lines(m, lines.drop_last()), lines.last())
    }
}

/// The molecule that the lines build: they are read into an empty
/// molecule, and bonds are inferred once, after the last line.
pub open spec fn molecule_of_lines(lines: Seq<Seq<char>>) -> MoleculeView {
    after_lines(MoleculeView::empty(), lines).with_inferred_bonds()
}

/// The molecule that a text builds, line by line.
pub open spec fn molecule_of_text(text: Seq<char>) -> MoleculeView {
    molecule_of_lines(lines_of(text))
}

/// The texts of a sequence of strings.
pub open spec fn string_views(lines: Seq<String>) -> Seq<Seq<char>> {
    Seq::new(lines.len(), |i: int| lines[i]@)
}

/// Tells what kind of record `line` is.
pub fn classify(line: &[char]) -> (kind: RecordKind)
    ensures
        kind == record_kind(line@),
{
    let model: [char; 6] = ['M', 'O', 'D', 'E', 'L', ' '];
    let end_model: [char; 6] = ['E', 'N', 'D', 'M', 'D', 'L'];
    let atom: [char; 6] = ['A', 'T', 'O', 'M', ' ', ' '];
    let hetatm: [char; 6] = ['H', 'E', 'T', 'A', 'T', 'M'];
    assert(model@ =~= model_tag());
    assert(end_model@ =~= end_model_tag());
    assert(atom@ =~= atom_tag());
    assert(hetatm@ =~= hetatm_tag());
    if has_prefix(line, model.as_slice()) {
        RecordKind::ModelOpen
    } else if has_prefix(line, end_model.as_slice()) {
        RecordKind::ModelClose
    } else if has_prefix(line, atom.as_slice()) {
        RecordKind::Atom
    } else if has_prefix(line, hetatm.as_slice()) {
        RecordKind::HetAtom
    } else {
        RecordKind::Other
    }
}

/// Reads the serial number of a model-open record.
pub fn decode_model(line: &[char]) -> (r: Option<usize>)
    ensures
        r == model_serial(line@),
{
    if line.len() < 14 {
        return None;
    }
    parse_usize(trim(span(line, 10, 14)))
}

/// The element that the first letter of an atom name stands for.
pub fn element_of_initial(c: char) -> (r: Element)
    ensures
        r == initial_element(c),
{
    match c {
        'H' => Element::H,
        'C' => Element::C,
        'N' => Element::N,
        'O' => Element::O,
        'S' => Element::S,
        'P' => Element::P,
        'F' => Element::F,
        'K' => Element::K,
        'B' => Element::B,
        _ => Element::Unknown,
    }
}

/// The element of an atom with the trimmed name `name`.
pub fn element_of_name(name: &[char]) -> (r: Element)
    ensures
        r == name_element(name@),
{
    proof {
        lemma_name_element_is_initial(name@);
    }
    if name.len() == 0 {
        Element::Unknown
    } else {
        element_of_initial(name[0])
    }
}

/// Infers the element of an atom from its name; white space around the
/// name is ignored.
pub fn infer_element_from_atom_name(atom_name: &str) -> (r: Element)
    ensures
        r == inferred_element(atom_name@),
{
    let chars = to_chars(atom_name);
    element_of_name(trim(chars.as_slice()))
}

/// Reads the decimal in the columns `from + 1` to `to`, or gives `default`.
fn decode_decimal_or(line: &[char], from: usize, to: usize, default: Decimal) -> (r: Decimal)
    requires
        from <= to,
    ensures
        r == decimal_or(line@, from as int, to as int, default),
{
    if line.len() >= to {
        match parse_decimal(trim(span(line, from, to))) {
            Some(d) => d,
            None => default,
        }
    } else {
        default
    }
}

/// Reads the element of an atom record.
fn decode_element(line: &[char]) -> (r: Element)
    requires
        line.len() >= 54,
    ensures
        r == line_element(line@),
{
    if line.len() >= 78 {
        let symbol = trim(span(line, 76, 78));
        if symbol.len() > 0 {
            return element_of_symbol(symbol);
        }
    }
    element_of_name(trim(span(line, 12, 16)))
}

/// Reads the atom that a line describes from its fixed columns.
pub fn decode_atom(line: &[char]) -> (r: Option<Atom>)
    ensures
        match r {
            Some(a) => atom_of_line(line@) == Some(a@),
            None => atom_of_line(line@) is None,
        },
{
    if line.len() < 54 {
        return None;
    }
    let id: usize = match parse_usize(trim(span(line, 6, 11))) {
        Some(v) => v,
        None => {
            return None;
        },
    };
    let residue_id: usize = match parse_usize(trim(span(line, 22, 26))) {
        Some(v) => v,
        None => {
            return None;
        },
    };
    let x: Decimal = match parse_decimal(trim(span(line, 30, 38))) {
        Some(v) => v,
        None => {
            return None;
        },
    };
    let y: Decimal = match parse_decimal(trim(span(line, 38, 46))) {
        Some(v) => v,
        None => {
            return None;
        },
    };
    let z: Decimal = match parse_decimal(trim(span(line, 46, 54))) {
        Some(v) => v,
        None => {
            return None;
        },
    };
    let hetatm: [char; 6] = ['H', 'E', 'T', 'A', 'T', 'M'];
    assert(hetatm@ =~= hetatm_tag());
    let atom = Atom {
        id,
        name: string_of(trim(span(line, 12, 16))),
        element: decode_element(line),
        position: [x, y, z],
        residue_id,
        chain_id: if is_whitespace(line[21]) {
            'A'
        } else {
            line[21]
        },
        b_factor: decode_decimal_or(line, 60, 66, Decimal::zero()),
        occupancy: decode_decimal_or(line, 54, 60, Decimal::one()),
        residue_name: string_of(trim(span(line, 17, 20))),
        alt_loc: line[16],
        ins_code: line[26],
        is_hetatm: has_prefix(line, hetatm.as_slice()),
    };
    Some(atom)
}

/// Reads one line into the molecule.
pub fn read_record(molecule: &mut Molecule, line: &[char])
    ensures
        final(molecule)@ == after_line(old(molecule)@, line@),
        old(molecule)@.well_formed() ==> final(molecule)@.well_formed(),
{
    match classify(line) {
        RecordKind::ModelOpen => {
            if let Some(id) = decode_model(line) {
                molecule.start_model(id);
            }
        },
        RecordKind::ModelClose => {
            molecule.end_model();
        },
        RecordKind::Atom | RecordKind::HetAtom => {
            if let Some(atom) = decode_atom(line) {
                molecule.add_atom(atom);
            }
        },
        RecordKind::Other => {},
    }
}

/// Reading one more line goes on from where the lines before it led.
pub proof fn lemma_after_lines_push(m: MoleculeView, lines: Seq<Seq<char>>, line: Seq<char>)
    ensures
        after_lines(m, lines.push(line)) == after_line(after_lines(m, lines), line),
{
    assert(lines.push(line).drop_last() =~= lines);
}

/// A text that goes up to a line feed at `k` has its first line there, and
/// its other lines are those of the text behind the line feed.
pub proof fn lemma_lines_of_split(text: Seq<char>, k: int)
    requires
        0 <= k < text.len(),
        text[k] == '\n',
        forall|i: int| 0 <= i < k ==> #[trigger] text[i] != '\n',
    ensures
        lines_of(text) == seq![without_return(text.take(k))] + lines_of(text.skip(k + 1)),
{
    lemma_first_position(text, '\n', k);
}

/// A text without a line feed is one line, unless it is empty.
pub proof fn lemma_lines_of_last(text: Seq<char>)
    requires
        forall|i: int| 0 <= i < text.len() ==> #[trigger] text[i] != '\n',
    ensures
        lines_of(text) == if text.len() == 0 {
            Seq::<Seq<char>>::empty()
        } else {
            seq![text]
        },
{
    lemma_first_position(text, '\n', text.len() as int);
}

/// A parser of atomic-coordinate text.
pub struct PdbParser;

impl PdbParser {
    pub fn new() -> (parser: Self) {
        PdbParser
    }

    /// Reads the serial number of a model-open record from columns 11 to
    /// 14; a line that is too short or holds no number there has none.
    pub fn parse_model_line(&self, line: &str) -> (r: Option<usize>)
        ensures
            r == model_serial(line@),
    {
        let chars = to_chars(line);
        decode_model(chars.as_slice())
    }

    /// Reads the atom that a line describes; a line that is too short, or
    /// whose serial number, residue sequence number or coordinates are not
    /// numbers, describes none.
    pub fn parse_atom_line(&self, line: &str) -> (r: Option<Atom>)
        ensures
            match r {
                Some(a) => atom_of_line(line@) == Some(a@),
                None => atom_of_line(line@) is None,
            },
    {
        let chars = to_chars(line);
        decode_atom(chars.as_slice())
    }

    /// Reads one line into the molecule; a line that is not understood
    /// changes nothing.
    pub fn parse_line(&self, molecule: &mut Molecule, line: &str)
        ensures
            final(molecule)@ == after_line(old(molecule)@, line@),
            old(molecule)@.well_formed() ==> final(molecule)@.well_formed(),
    {
        let chars = to_chars(line);
        read_record(molecule, chars.as_slice());
    }

    /// Builds the molecule that the lines describe, and infers its bonds.
    pub fn parse_lines(&self, lines: &Vec<String>) -> (m: Molecule)
        ensures
            m@ == molecule_of_lines(string_views(lines@)),
            m@.grouped(),
    {
        proof {
            lemma_after_lines_grouped(MoleculeView::empty(), string_views(lines@));
        }
        let mut m = Molecule::new();
        let ghost all = string_views(lines@);
        let mut i: usize = 0;
        while i < lines.len()
            invariant
                i <= lines.len(),
                all == string_views(lines@),
                m@.well_formed(),
                m@ == after_lines(MoleculeView::empty(), all.take(i as int)),
            decreases lines.len() - i,
        {
            proof {
                assert(all.take(i + 1) =~= all.take(i as int).push(lines@[i as int]@));
                lemma_after_lines_push(MoleculeView::empty(), all.take(i as int), lines@[i as int]@);
            }
            self.parse_line(&mut m, lines[i].as_str());
            i += 1;
        }
        assert(all.take(lines.len() as int) =~= all);
        m.calculate_bonds();
        m
    }

    /// Builds the molecule that a text describes, line by line, and infers
    /// its bonds.
    pub fn parse_string(&self, content: &str) -> (m: Molecule)
        ensures
            m@ == molecule_of_text(content@),
            m@.grouped(),
    {
        proof {
            lemma_after_lines_grouped(MoleculeView::empty(), lines_of(content@));
        }
        let chars = to_chars(content);
        let n: usize = chars.len();
        let ghost text = chars@;
        let mut m = Molecule::new();
        let ghost mut done: Seq<Seq<char>> = Seq::empty();
        let mut start: usize = 0;
        let mut i: usize = 0;
        assert(text.skip(0) =~= text);
        assert(done + lines_of(text) =~= lines_of(text));
        while i < n
            invariant
                start <= i <= n,
                n == chars.len(),
                text == chars@,
                text == content@,
                forall|k: int| start <= k < i ==> text[k] != '\n',
                lines_of(text) == done + lines_of(text.skip(start as int)),
                m@.well_formed(),
                m@ == after_lines(MoleculeView::empty(), done),
            decreases n - i,
        {
            if chars[i] == '\n' {
                let end: usize = if i > start && chars[i - 1] == '\r' {
                    i - 1
                } else {
                    i
                };
                proof {
                    let rest = text.skip(start as int);
                    lemma_lines_of_split(rest, i - start);
                    let line = without_return(rest.take(i - start));
                    assert(line =~= text.subrange(start as int, end as int));
                    assert(rest.skip(i - start + 1) =~= text.skip(i + 1));
                    lemma_after_lines_push(MoleculeView::empty(), done, line);
                    assert(done + (seq![line] + lines_of(text.skip(i + 1))) =~= done.push(line)
                        + lines_of(text.skip(i + 1)));
                    done = done.push(line);
                }
                read_record(&mut m, span(chars.as_slice(), start, end));
                start = i + 1;
            }
            i += 1;
        }
        proof {
            lemma_lines_of_last(text.skip(start as int));
        }
        if start < n {
            proof {
                let line = text.skip(start as int);
                assert(line =~= text.subrange(start as int, n as int));
                lemma_after_lines_push(MoleculeView::empty(), done, line);
                assert(done + seq![line] =~= done.push(line));
            }
            read_record(&mut m, span(chars.as_slice(), start, n));
        } else {
            assert(done + Seq::<Seq<char>>::empty() =~= done);
        }
        m.calculate_bonds();
        m
    }
}

} // verus!
