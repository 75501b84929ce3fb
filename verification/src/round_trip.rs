//! Written records are read back: an atom whose fields fit their columns
//! is described by its own line.

use vstd::prelude::*;
use crate::decimal::{
    decimal_of, decimal_units, fraction_digits, lemma_power_of_ten_positive, power_of_ten,
    unsigned_part, whole_digits, Decimal, DECIMAL_PLACES,
};
use crate::element::{lemma_symbol_round_trip, Element};
use crate::format::{
    blanks, decimal_digits, fixed_digits, fixed_notation, left_aligned,
    lemma_decimal_digits_value, right_aligned, rounded_magnitude,
};
use crate::parser::{
    after_line, after_lines, atom_of_line, atom_tag, end_model_tag, field, hetatm_tag,
    line_element, model_tag, molecule_of_text, record_kind, RecordKind,
};
use crate::structure::{AtomView, MoleculeView};
use crate::text::{
    digit, digits_value, lemma_first_position, lemma_lines_of_joined,
    lemma_lines_of_one, lines_of, no_line_feed, trimmed, trimmed_end, trimmed_start, usize_of,
    whitespace, without_return,
};
use crate::theorems::{lemma_digits_value_concat, lemma_fixed_digits, lemma_plain_decimal};
use crate::writer::{atom_line, atom_lines, record_name, records_text, ter_line};

verus! {

/// Whether `s` is empty or has no white space at either end.
pub open spec fn plain(s: Seq<char>) -> bool {
    s.len() == 0 || (!whitespace(s[0]) && !whitespace(s.last()))
}

/// Whether `d` has no digits behind the first `places` fraction digits,
/// and is no wider than `width` when written with that many.
pub open spec fn fits_decimal(d: Decimal, places: nat, width: int) -> bool {
    &&& d.magnitude as nat % power_of_ten((DECIMAL_PLACES - places) as nat) == 0
    &&& fixed_notation(d, places).len() <= width
}

/// Whether every field of `a` fits its columns: the numbers are no wider
/// than their columns and have no more fraction digits than are written,
/// the names are no wider than theirs and have no white space at their
/// ends, the chain identifier is not blank, and the element is known.
pub open spec fn fits_columns(a: AtomView) -> bool {
    &&& decimal_digits(a.id as nat).len() <= 5
    &&& decimal_digits(a.residue_id as nat).len() <= 4
    &&& a.name.len() <= 4
    &&& plain(a.name)
    &&& a.residue_name.len() <= 3
    &&& plain(a.residue_name)
    &&& !whitespace(a.chain_id)
    &&& fits_decimal(a.x, 3, 8)
    &&& fits_decimal(a.y, 3, 8)
    &&& fits_decimal(a.z, 3, 8)
    &&& fits_decimal(a.occupancy, 2, 6)
    &&& fits_decimal(a.b_factor, 2, 6)
    &&& a.element != Element::Unknown
}

/// Blanks before a text are trimmed away.
pub proof fn lemma_trimmed_start_blanks(n: int, s: Seq<char>)
    ensures
        trimmed_start(blanks(n) + s) == trimmed_start(s),
    decreases n,
{
    if n <= 0 {
        assert(blanks(n) + s =~= s);
    } else {
        let t = blanks(n) + s;
        assert(t[0] == ' ');
        assert(t.drop_first() =~= blanks(n - 1) + s);
        lemma_trimmed_start_blanks(n - 1, s);
    }
}

/// Blanks behind a text are trimmed away.
pub proof fn lemma_trimmed_end_blanks(s: Seq<char>, n: int)
    ensures
        trimmed_end(s + blanks(n)) == trimmed_end(s),
    decreases n,
{
    if n <= 0 {
        assert(s + blanks(n) =~= s);
    } else {
        let t = s + blanks(n);
        assert(t.last() == ' ');
        assert(t.drop_last() =~= s + blanks(n - 1));
        lemma_trimmed_end_blanks(s, n - 1);
    }
}

/// A text without white space at its ends is what trimming leaves of it
/// after it was aligned in a wider field.
pub proof fn lemma_trimmed_aligned(s: Seq<char>, width: int)
    requires
        plain(s),
    ensures
        trimmed(right_aligned(s, width)) == s,
        trimmed(left_aligned(s, width)) == s,
{
    let n = width - s.len();
    lemma_trimmed_start_blanks(n, s);
    lemma_trimmed_end_blanks(s, n);
    if s.len() == 0 {
        assert(s + blanks(n) =~= blanks(n) + s);
    }
}

/// A number in base ten has no white space in it.
pub proof fn lemma_decimal_digits_plain(n: nat)
    ensures
        plain(decimal_digits(n)),
        decimal_digits(n).len() > 0,
        !whitespace(decimal_digits(n)[0]),
{
    lemma_decimal_digits_value(n);
    let s = decimal_digits(n);
    assert(digit(s[0]));
    assert(digit(s[s.len() - 1]));
}

/// A number that fits a `usize`, written in base ten, is read back as
/// itself.
pub proof fn lemma_usize_round_trip(n: usize)
    ensures
        usize_of(decimal_digits(n as nat)) == Some(n),
{
    lemma_decimal_digits_value(n as nat);
    let s = decimal_digits(n as nat);
    assert(digit(s[0]));
}

/// A decimal written with fewer than all its fraction digits has no white
/// space at its ends, and is read back as itself if the digits left out
/// are zeros.
pub proof fn lemma_fixed_notation_round_trip(d: Decimal, places: nat)
    requires
        0 < places <= DECIMAL_PLACES,
        d.magnitude as nat % power_of_ten((DECIMAL_PLACES - places) as nat) == 0,
    ensures
        plain(fixed_notation(d, places)),
        fixed_notation(d, places).len() > 0,
        decimal_of(fixed_notation(d, places)) == Some(d),
{
    let m = d.magnitude as nat;
    let unit = power_of_ten((DECIMAL_PLACES - places) as nat);
    let scale = power_of_ten(places);
    lemma_power_of_ten_positive((DECIMAL_PLACES - places) as nat);
    lemma_power_of_ten_positive(places);
    let r = rounded_magnitude(d, places);
    assert(r == m / unit);
    assert(m == r * unit) by (nonlinear_arith)
        requires
            r == m / unit,
            m % unit == 0,
            unit > 0,
    ;
    let w = decimal_digits(r / scale);
    let f = fixed_digits(r, places);
    lemma_decimal_digits_value(r / scale);
    lemma_fixed_digits(r, places);
    let sign = if d.negative {
        seq!['-']
    } else {
        Seq::<char>::empty()
    };
    let text = fixed_notation(d, places);
    let body = w + seq!['.'] + f;
    assert(text == sign + w + seq!['.'] + f);
    assert(digit(w[0]));
    assert(digit(f[f.len() - 1]));
    assert(text.last() == f.last());
    if d.negative {
        assert(text[0] == '-');
        assert(text.drop_first() =~= body);
    } else {
        assert(text =~= body);
        assert(text[0] == w[0]);
    }
    assert(unsigned_part(text) == body);
    assert forall|i: int| 0 <= i < w.len() implies #[trigger] body[i] != '.' by {
        assert(body[i] == w[i]);
        assert(digit(w[i]));
    }
    assert(body[w.len() as int] == '.');
    lemma_first_position(body, '.', w.len() as int);
    assert(whole_digits(body) =~= w);
    assert(fraction_digits(body) =~= f);
    lemma_plain_decimal(body);
    lemma_digits_value_concat(w, f);
    assert(digits_value(w + f) == r) by (nonlinear_arith)
        requires
            digits_value(w + f) == (r / scale) * scale + r % scale,
            scale > 0,
    ;
    assert(decimal_units(body) == m);
}

/// Whether `line` holds the fields of `a` in the columns of an atom
/// record, each aligned as it is written.
pub open spec fn holds_fields(line: Seq<char>, a: AtomView) -> bool {
    &&& line.len() == 78
    &&& line.subrange(0, 6) == left_aligned(record_name(a.is_hetatm), 6)
    &&& line.subrange(6, 11) == right_aligned(decimal_digits(a.id as nat), 5)
    &&& line.subrange(12, 16) == left_aligned(a.name, 4)
    &&& line[16] == a.alt_loc
    &&& line.subrange(17, 20) == right_aligned(a.residue_name, 3)
    &&& line[21] == a.chain_id
    &&& line.subrange(22, 26) == right_aligned(decimal_digits(a.residue_id as nat), 4)
    &&& line[26] == a.ins_code
    &&& line.subrange(30, 38) == right_aligned(fixed_notation(a.x, 3), 8)
    &&& line.subrange(38, 46) == right_aligned(fixed_notation(a.y, 3), 8)
    &&& line.subrange(46, 54) == right_aligned(fixed_notation(a.z, 3), 8)
    &&& line.subrange(54, 60) == right_aligned(fixed_notation(a.occupancy, 2), 6)
    &&& line.subrange(60, 66) == right_aligned(fixed_notation(a.b_factor, 2), 6)
    &&& line.subrange(76, 78) == right_aligned(a.element.symbol_chars(), 2)
}

/// Where the parts of a line have the widths of their columns, each part
/// is found in its columns.
pub proof fn lemma_parts_in_columns(
    head: Seq<char>,
    serial: Seq<char>,
    name: Seq<char>,
    alt_loc: char,
    residue_name: Seq<char>,
    chain_id: char,
    residue: Seq<char>,
    ins_code: char,
)
    requires
        head.len() == 6,
        serial.len() == 5,
        name.len() == 4,
        residue_name.len() == 3,
        residue.len() == 4,
    ensures
        ({
            let front = head + serial + seq![' '] + name + seq![alt_loc] + residue_name + seq![' ']
                + seq![chain_id] + residue + seq![ins_code] + blanks(3);
            &&& front.len() == 30
            &&& front.subrange(0, 6) == head
            &&& front.subrange(6, 11) == serial
            &&& front.subrange(12, 16) == name
            &&& front[16] == alt_loc
            &&& front.subrange(17, 20) == residue_name
            &&& front[21] == chain_id
            &&& front.subrange(22, 26) == residue
            &&& front[26] == ins_code
        }),
{
    let front = head + serial + seq![' '] + name + seq![alt_loc] + residue_name + seq![' ']
        + seq![chain_id] + residue + seq![ins_code] + blanks(3);
    assert(front.subrange(0, 6) =~= head);
    assert(front.subrange(6, 11) =~= serial);
    assert(front.subrange(12, 16) =~= name);
    assert(front.subrange(17, 20) =~= residue_name);
    assert(front.subrange(22, 26) =~= residue);
}

/// Where the numbers of a line have the widths of their columns, each is
/// found in its columns behind the front of the line, and the front of
/// the line is as it was.
pub proof fn lemma_numbers_in_columns(
    front: Seq<char>,
    x: Seq<char>,
    y: Seq<char>,
    z: Seq<char>,
    occupancy: Seq<char>,
    b_factor: Seq<char>,
    symbol: Seq<char>,
)
    requires
        front.len() == 30,
        x.len() == 8,
        y.len() == 8,
        z.len() == 8,
        occupancy.len() == 6,
        b_factor.len() == 6,
        symbol.len() == 2,
    ensures
        ({
            let line = front + x + y + z + occupancy + b_factor + blanks(10) + symbol;
            &&& line.len() == 78
            &&& line.subrange(0, 30) == front
            &&& line.subrange(30, 38) == x
            &&& line.subrange(38, 46) == y
            &&& line.subrange(46, 54) == z
            &&& line.subrange(54, 60) == occupancy
            &&& line.subrange(60, 66) == b_factor
            &&& line.subrange(76, 78) == symbol
        }),
{
    let line = front + x + y + z + occupancy + b_factor + blanks(10) + symbol;
    assert(line.subrange(0, 30) =~= front);
    assert(line.subrange(30, 38) =~= x);
    assert(line.subrange(38, 46) =~= y);
    assert(line.subrange(46, 54) =~= z);
    assert(line.subrange(54, 60) =~= occupancy);
    assert(line.subrange(60, 66) =~= b_factor);
    assert(line.subrange(76, 78) =~= symbol);
}

/// The line of an atom whose fields fit their columns holds each field in
/// its columns.
pub proof fn lemma_atom_line_holds_fields(a: AtomView)
    requires
        fits_columns(a),
    ensures
        holds_fields(atom_line(a), a),
{
    let head = left_aligned(record_name(a.is_hetatm), 6);
    let serial = right_aligned(decimal_digits(a.id as nat), 5);
    let name = left_aligned(a.name, 4);
    let residue_name = right_aligned(a.residue_name, 3);
    let residue = right_aligned(decimal_digits(a.residue_id as nat), 4);
    let x = right_aligned(fixed_notation(a.x, 3), 8);
    let y = right_aligned(fixed_notation(a.y, 3), 8);
    let z = right_aligned(fixed_notation(a.z, 3), 8);
    let occupancy = right_aligned(fixed_notation(a.occupancy, 2), 6);
    let b_factor = right_aligned(fixed_notation(a.b_factor, 2), 6);
    let symbol = right_aligned(a.element.symbol_chars(), 2);
    lemma_decimal_digits_value(a.id as nat);
    lemma_decimal_digits_value(a.residue_id as nat);
    assert(head.len() == 6);
    assert(serial.len() == 5);
    assert(name.len() == 4);
    assert(residue_name.len() == 3);
    assert(residue.len() == 4);
    assert(x.len() == 8);
    assert(y.len() == 8);
    assert(z.len() == 8);
    assert(occupancy.len() == 6);
    assert(b_factor.len() == 6);
    assert(symbol.len() == 2);
    let front = head + serial + seq![' '] + name + seq![a.alt_loc] + residue_name + seq![' ']
        + seq![a.chain_id] + residue + seq![a.ins_code] + blanks(3);
    lemma_parts_in_columns(
        head,
        serial,
        name,
        a.alt_loc,
        residue_name,
        a.chain_id,
        residue,
        a.ins_code,
    );
    lemma_numbers_in_columns(front, x, y, z, occupancy, b_factor, symbol);
    let line = front + x + y + z + occupancy + b_factor + blanks(10) + symbol;
    assert(line == atom_line(a)) by {
        reveal(atom_line);
    }
    lemma_front_of_line(line, front);
}

/// What stands in the front of a line stands in the line.
pub proof fn lemma_front_of_line(line: Seq<char>, front: Seq<char>)
    requires
        line.len() >= 30,
        front == line.subrange(0, 30),
    ensures
        line.subrange(0, 6) == front.subrange(0, 6),
        line.subrange(6, 11) == front.subrange(6, 11),
        line.subrange(12, 16) == front.subrange(12, 16),
        line[16] == front[16],
        line.subrange(17, 20) == front.subrange(17, 20),
        line[21] == front[21],
        line.subrange(22, 26) == front.subrange(22, 26),
        line[26] == front[26],
{
    assert(line.subrange(0, 6) =~= front.subrange(0, 6));
    assert(line.subrange(6, 11) =~= front.subrange(6, 11));
    assert(line.subrange(12, 16) =~= front.subrange(12, 16));
    assert(line.subrange(17, 20) =~= front.subrange(17, 20));
    assert(line.subrange(22, 26) =~= front.subrange(22, 26));
}

/// A line that holds the fields of an atom in their columns describes the
/// atom, if the fields fit their columns.
pub proof fn lemma_fields_are_read(line: Seq<char>, a: AtomView)
    requires
        fits_columns(a),
        holds_fields(line, a),
    ensures
        atom_of_line(line) == Some(a),
{
    lemma_decimal_digits_plain(a.id as nat);
    lemma_decimal_digits_plain(a.residue_id as nat);
    lemma_usize_round_trip(a.id);
    lemma_usize_round_trip(a.residue_id);
    lemma_fixed_notation_round_trip(a.x, 3);
    lemma_fixed_notation_round_trip(a.y, 3);
    lemma_fixed_notation_round_trip(a.z, 3);
    lemma_fixed_notation_round_trip(a.occupancy, 2);
    lemma_fixed_notation_round_trip(a.b_factor, 2);
    lemma_symbol_round_trip(a.element);
    lemma_trimmed_aligned(decimal_digits(a.id as nat), 5);
    lemma_trimmed_aligned(a.name, 4);
    lemma_trimmed_aligned(a.residue_name, 3);
    lemma_trimmed_aligned(decimal_digits(a.residue_id as nat), 4);
    lemma_trimmed_aligned(fixed_notation(a.x, 3), 8);
    lemma_trimmed_aligned(fixed_notation(a.y, 3), 8);
    lemma_trimmed_aligned(fixed_notation(a.z, 3), 8);
    lemma_trimmed_aligned(fixed_notation(a.occupancy, 2), 6);
    lemma_trimmed_aligned(fixed_notation(a.b_factor, 2), 6);
    let symbol = a.element.symbol_chars();
    assert(plain(symbol) && symbol.len() > 0);
    lemma_trimmed_aligned(symbol, 2);
    assert(field(line, 76, 78) == symbol);
    assert(line_element(line) == a.element);
    let head = left_aligned(record_name(a.is_hetatm), 6);
    if a.is_hetatm {
        assert(head =~= hetatm_tag());
    } else {
        assert(head[0] == 'A');
        assert(line.subrange(0, 6)[0] == 'A');
    }
    assert(hetatm_tag().is_prefix_of(line) == a.is_hetatm);
}

/// An atom whose fields fit their columns is described by its own line:
/// reading the line that was written for it gives the atom back.
pub proof fn lemma_atom_line_round_trip(a: AtomView)
    requires
        fits_columns(a),
    ensures
        atom_line(a).len() == 78,
        atom_of_line(atom_line(a)) == Some(a),
{
    lemma_atom_line_holds_fields(a);
    lemma_fields_are_read(atom_line(a), a);
}

/// Whether the atom `a` can be written as one line and read back: its
/// fields fit their columns, and no line feed stands in them.
pub open spec fn writable(a: AtomView) -> bool {
    &&& fits_columns(a)
    &&& no_line_feed(a.name)
    &&& no_line_feed(a.residue_name)
    &&& a.alt_loc != '\n'
    &&& a.ins_code != '\n'
}

/// The lines of the first `n` atoms, one for each.
pub open spec fn record_lines(atoms: Seq<AtomView>, n: int) -> Seq<Seq<char>> {
    Seq::new(
        if n > 0 {
            n as nat
        } else {
            0
        },
        |i: int| atom_line(atoms[i]),
    )
}

/// Two texts without a line feed have none when they are joined.
pub proof fn lemma_no_line_feed_joined(x: Seq<char>, y: Seq<char>)
    requires
        no_line_feed(x),
        no_line_feed(y),
    ensures
        no_line_feed(x + y),
{
    assert forall|i: int| 0 <= i < (x + y).len() implies #[trigger] (x + y)[i] != '\n' by {
        if i < x.len() {
            assert((x + y)[i] == x[i]);
        } else {
            assert((x + y)[i] == y[i - x.len()]);
        }
    }
}

/// A text without a line feed has none when it is aligned in a field.
pub proof fn lemma_no_line_feed_aligned(s: Seq<char>, width: int)
    requires
        no_line_feed(s),
    ensures
        no_line_feed(right_aligned(s, width)),
        no_line_feed(left_aligned(s, width)),
{
    lemma_no_line_feed_joined(blanks(width - s.len()), s);
    lemma_no_line_feed_joined(s, blanks(width - s.len()));
}

/// A number written in base ten, aligned in a field, holds no line feed.
pub proof fn lemma_no_line_feed_number(n: nat, width: int)
    ensures
        no_line_feed(right_aligned(decimal_digits(n), width)),
{
    lemma_decimal_digits_value(n);
    let s = decimal_digits(n);
    assert forall|i: int| 0 <= i < s.len() implies #[trigger] s[i] != '\n' by {
        assert(digit(s[i]));
    }
    lemma_no_line_feed_aligned(s, width);
}

/// A decimal written with a fixed number of fraction digits, aligned in a
/// field, holds no line feed.
pub proof fn lemma_no_line_feed_decimal(d: Decimal, places: nat, width: int)
    requires
        0 < places <= DECIMAL_PLACES,
    ensures
        no_line_feed(right_aligned(fixed_notation(d, places), width)),
{
    let r = rounded_magnitude(d, places);
    let w = decimal_digits(r / power_of_ten(places));
    let f = fixed_digits(r, places);
    lemma_decimal_digits_value(r / power_of_ten(places));
    lemma_fixed_digits(r, places);
    assert forall|i: int| 0 <= i < w.len() implies #[trigger] w[i] != '\n' by {
        assert(digit(w[i]));
    }
    assert forall|i: int| 0 <= i < f.len() implies #[trigger] f[i] != '\n' by {
        assert(digit(f[i]));
    }
    let sign = if d.negative {
        seq!['-']
    } else {
        Seq::<char>::empty()
    };
    lemma_no_line_feed_joined(sign, w);
    lemma_no_line_feed_joined(sign + w, seq!['.']);
    lemma_no_line_feed_joined(sign + w + seq!['.'], f);
    lemma_no_line_feed_aligned(fixed_notation(d, places), width);
}

/// The line of a writable atom holds no line feed.
pub proof fn lemma_atom_line_no_line_feed(a: AtomView)
    requires
        writable(a),
    ensures
        no_line_feed(atom_line(a)),
{
    let p0 = left_aligned(record_name(a.is_hetatm), 6);
    let p1 = right_aligned(decimal_digits(a.id as nat), 5);
    let p3 = left_aligned(a.name, 4);
    let p5 = right_aligned(a.residue_name, 3);
    let p8 = right_aligned(decimal_digits(a.residue_id as nat), 4);
    let p11 = right_aligned(fixed_notation(a.x, 3), 8);
    let p12 = right_aligned(fixed_notation(a.y, 3), 8);
    let p13 = right_aligned(fixed_notation(a.z, 3), 8);
    let p14 = right_aligned(fixed_notation(a.occupancy, 2), 6);
    let p15 = right_aligned(fixed_notation(a.b_factor, 2), 6);
    let p17 = right_aligned(a.element.symbol_chars(), 2);
    lemma_no_line_feed_aligned(record_name(a.is_hetatm), 6);
    lemma_no_line_feed_number(a.id as nat, 5);
    lemma_no_line_feed_aligned(a.name, 4);
    lemma_no_line_feed_aligned(a.residue_name, 3);
    lemma_no_line_feed_number(a.residue_id as nat, 4);
    lemma_no_line_feed_decimal(a.x, 3, 8);
    lemma_no_line_feed_decimal(a.y, 3, 8);
    lemma_no_line_feed_decimal(a.z, 3, 8);
    lemma_no_line_feed_decimal(a.occupancy, 2, 6);
    lemma_no_line_feed_decimal(a.b_factor, 2, 6);
    lemma_no_line_feed_aligned(a.element.symbol_chars(), 2);
    let l1 = p0 + p1;
    lemma_no_line_feed_joined(p0, p1);
    let l2 = l1 + seq![' '];
    lemma_no_line_feed_joined(l1, seq![' ']);
    let l3 = l2 + p3;
    lemma_no_line_feed_joined(l2, p3);
    let l4 = l3 + seq![a.alt_loc];
    lemma_no_line_feed_joined(l3, seq![a.alt_loc]);
    let l5 = l4 + p5;
    lemma_no_line_feed_joined(l4, p5);
    let l6 = l5 + seq![' '];
    lemma_no_line_feed_joined(l5, seq![' ']);
    let l7 = l6 + seq![a.chain_id];
    lemma_no_line_feed_joined(l6, seq![a.chain_id]);
    let l8 = l7 + p8;
    lemma_no_line_feed_joined(l7, p8);
    let l9 = l8 + seq![a.ins_code];
    lemma_no_line_feed_joined(l8, seq![a.ins_code]);
    let l10 = l9 + blanks(3);
    lemma_no_line_feed_joined(l9, blanks(3));
    let l11 = l10 + p11;
    lemma_no_line_feed_joined(l10, p11);
    let l12 = l11 + p12;
    lemma_no_line_feed_joined(l11, p12);
    let l13 = l12 + p13;
    lemma_no_line_feed_joined(l12, p13);
    let l14 = l13 + p14;
    lemma_no_line_feed_joined(l13, p14);
    let l15 = l14 + p15;
    lemma_no_line_feed_joined(l14, p15);
    let l16 = l15 + blanks(10);
    lemma_no_line_feed_joined(l15, blanks(10));
    let l17 = l16 + p17;
    lemma_no_line_feed_joined(l16, p17);
    assert(l17 == atom_line(a)) by {
        reveal(atom_line);
    }
}

/// The terminating line after a writable atom holds no line feed, and is
/// a line of no kind.
pub proof fn lemma_ter_line_is_passed_over(a: AtomView)
    requires
        writable(a),
    ensures
        no_line_feed(ter_line(a)),
        ter_line(a).len() > 0,
        record_kind(ter_line(a)) == RecordKind::Other,
{
    let p2 = right_aligned(decimal_digits((a.id + 1) as nat), 5);
    let p4 = right_aligned(a.residue_name, 3);
    let p7 = right_aligned(decimal_digits(a.residue_id as nat), 4);
    lemma_no_line_feed_number((a.id + 1) as nat, 5);
    lemma_no_line_feed_aligned(a.residue_name, 3);
    lemma_no_line_feed_number(a.residue_id as nat, 4);
    let l0 = seq!['T', 'E', 'R'];
    let l1 = l0 + blanks(3);
    lemma_no_line_feed_joined(l0, blanks(3));
    let l2 = l1 + p2;
    lemma_no_line_feed_joined(l1, p2);
    let l3 = l2 + blanks(6);
    lemma_no_line_feed_joined(l2, blanks(6));
    let l4 = l3 + p4;
    lemma_no_line_feed_joined(l3, p4);
    let l5 = l4 + seq![' '];
    lemma_no_line_feed_joined(l4, seq![' ']);
    let l6 = l5 + seq![a.chain_id];
    lemma_no_line_feed_joined(l5, seq![a.chain_id]);
    let l7 = l6 + p7;
    lemma_no_line_feed_joined(l6, p7);
    let l8 = l7 + seq![a.ins_code];
    lemma_no_line_feed_joined(l7, seq![a.ins_code]);
    assert(l8 == ter_line(a));
    assert(l1[0] == 'T');
    assert(l8[0] == 'T');
    let line = ter_line(a);
    if line.len() >= 6 {
        assert(line.subrange(0, 6)[0] == 'T');
    }
}

/// A line that holds the fields of an atom in their columns is an atom or
/// heteroatom record that adds the atom, and it ends in no carriage
/// return.
pub proof fn lemma_line_is_read(m: MoleculeView, line: Seq<char>, a: AtomView)
    requires
        fits_columns(a),
        holds_fields(line, a),
    ensures
        without_return(line) == line,
        after_line(m, line) == m.with_atom(a),
{
    lemma_fields_are_read(line, a);
    let head = left_aligned(record_name(a.is_hetatm), 6);
    assert(line.subrange(0, 6) == head);
    if a.is_hetatm {
        assert(head =~= hetatm_tag());
        assert(head[0] == 'H');
    } else {
        assert(head =~= atom_tag());
        assert(head[0] == 'A');
    }
    assert(line.subrange(0, 6)[0] == head[0]);
    assert(!model_tag().is_prefix_of(line));
    assert(!end_model_tag().is_prefix_of(line));
    let symbol = right_aligned(a.element.symbol_chars(), 2);
    assert(line.subrange(76, 78) == symbol);
    assert(line.subrange(76, 78)[1] == line[77]);
    assert(symbol[1] != '\r');
}

/// The line of a writable atom is read as the atom: it ends in no
/// carriage return, and reading it adds the atom behind the atoms that
/// are there.
pub proof fn lemma_atom_line_is_read(m: MoleculeView, a: AtomView)
    requires
        writable(a),
    ensures
        without_return(atom_line(a)) == atom_line(a),
        after_line(m, atom_line(a)) == m.with_atom(a),
        after_line(m, atom_line(a)).atoms == m.atoms.push(a),
{
    lemma_atom_line_holds_fields(a);
    lemma_line_is_read(m, atom_line(a), a);
}

/// The text of the first `n` lines of writable atoms, ended by a line
/// feed, has these lines.
pub proof fn lemma_lines_of_atom_lines(atoms: Seq<AtomView>, n: int)
    requires
        1 <= n <= atoms.len(),
        forall|i: int| 0 <= i < atoms.len() ==> writable(#[trigger] atoms[i]),
    ensures
        lines_of(atom_lines(atoms, n) + seq!['\n']) == record_lines(atoms, n),
    decreases n,
{
    let last = atom_line(atoms[n - 1]);
    lemma_atom_line_no_line_feed(atoms[n - 1]);
    lemma_atom_line_is_read(MoleculeView::empty(), atoms[n - 1]);
    lemma_lines_of_one(last);
    if n == 1 {
        assert(record_lines(atoms, 1) =~= seq![last]);
    } else {
        lemma_lines_of_atom_lines(atoms, n - 1);
        let front = atom_lines(atoms, n - 1);
        assert(atom_lines(atoms, n) + seq!['\n'] =~= front + seq!['\n'] + (last + seq!['\n']));
        lemma_lines_of_joined(front, last + seq!['\n']);
        assert(record_lines(atoms, n - 1) + seq![last] =~= record_lines(atoms, n));
    }
}

/// Reading the lines of writable atoms adds the atoms, in their order.
pub proof fn lemma_after_record_lines(m: MoleculeView, atoms: Seq<AtomView>, n: int)
    requires
        0 <= n <= atoms.len(),
        forall|i: int| 0 <= i < atoms.len() ==> writable(#[trigger] atoms[i]),
    ensures
        after_lines(m, record_lines(atoms, n)).atoms == m.atoms + atoms.take(n),
    decreases n,
{
    let lines = record_lines(atoms, n);
    if n == 0 {
        assert(m.atoms + atoms.take(0) =~= m.atoms);
    } else {
        assert(lines.drop_last() =~= record_lines(atoms, n - 1));
        assert(lines.last() == atom_line(atoms[n - 1]));
        lemma_after_record_lines(m, atoms, n - 1);
        let before = after_lines(m, record_lines(atoms, n - 1));
        lemma_atom_line_is_read(before, atoms[n - 1]);
        assert((m.atoms + atoms.take(n - 1)).push(atoms[n - 1]) =~= m.atoms + atoms.take(n));
    }
}

/// Written records are read back: the text that is written for writable
/// atoms builds a molecule with exactly these atoms, in their order.
pub proof fn lemma_records_round_trip(atoms: Seq<AtomView>)
    requires
        forall|i: int| 0 <= i < atoms.len() ==> writable(#[trigger] atoms[i]),
    ensures
        molecule_of_text(records_text(atoms)).atoms == atoms,
{
    let n = atoms.len() as int;
    if n == 0 {
        assert(lines_of(records_text(atoms)) =~= Seq::<Seq<char>>::empty());
    } else {
        let ter = ter_line(atoms.last());
        let lines = record_lines(atoms, n);
        lemma_ter_line_is_passed_over(atoms.last());
        lemma_lines_of_atom_lines(atoms, n);
        lemma_lines_of_joined(atom_lines(atoms, n), ter);
        crate::parser::lemma_lines_of_last(ter);
        assert(lines_of(records_text(atoms)) == lines + seq![ter]);
        assert((lines + seq![ter]).drop_last() =~= lines);
        assert((lines + seq![ter]).last() == ter);
        lemma_after_record_lines(MoleculeView::empty(), atoms, n);
        assert(Seq::<AtomView>::empty() + atoms.take(n) =~= atoms);
    }
}

} // verus!
