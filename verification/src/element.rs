//! The chemical elements that the reader tells apart.

use vstd::prelude::*;
use crate::text::{string_of, to_chars, trim, trimmed};

verus! {

/// A chemical element, or `Unknown` for anything the table does not hold.
#[derive(Debug, Clone, Copy, PartialEq, Eq, Hash, Structural)]
pub enum Element {
    H,
    He,
    Li,
    Be,
    B,
    C,
    N,
    O,
    F,
    Ne,
    Na,
    Mg,
    Al,
    Si,
    P,
    S,
    Cl,
    Ar,
    K,
    Ca,
    Fe,
    Cu,
    Zn,
    Unknown,
}

/// The capital form of an ASCII letter; any other character unchanged.
pub open spec fn ascii_upper(c: char) -> char {
    if 'a' <= c <= 'z' {
        ((c as u32) - 32) as char
    } else {
        c
    }
}

/// The element whose symbol is the single capital letter `c`.
pub open spec fn one_letter_element(c: char) -> Element {
    if c == 'H' {
        Element::H
    } else if c == 'B' {
        Element::B
    } else if c == 'C' {
        Element::C
    } else if c == 'N' {
        Element::N
    } else if c == 'O' {
        Element::O
    } else if c == 'F' {
        Element::F
    } else if c == 'P' {
        Element::P
    } else if c == 'S' {
        Element::S
    } else if c == 'K' {
        Element::K
    } else {
        Element::Unknown
    }
}

/// The element whose symbol is the two capital letters `a`, `b`.
pub open spec fn two_capitals_element(a: char, b: char) -> Element {
    if a == 'H' && b == 'E' {
        Element::He
    } else if a == 'L' && b == 'I' {
        Element::Li
    } else if a == 'B' && b == 'E' {
        Element::Be
    } else if a == 'N' && b == 'E' {
        Element::Ne
    } else if a == 'N' && b == 'A' {
        Element::Na
    } else if a == 'M' && b == 'G' {
        Element::Mg
    } else if a == 'A' && b == 'L' {
        Element::Al
    } else if a == 'S' && b == 'I' {
        Element::Si
    } else if a == 'C' && b == 'L' {
        Element::Cl
    } else if a == 'A' && b == 'R' {
        Element::Ar
    } else if a == 'C' && b == 'A' {
        Element::Ca
    } else if a == 'F' && b == 'E' {
        Element::Fe
    } else if a == 'C' && b == 'U' {
        Element::Cu
    } else if a == 'Z' && b == 'N' {
        Element::Zn
    } else {
        Element::Unknown
    }
}

/// The element that the symbol `s` names. A symbol of one letter must be
/// written as a capital; in a symbol of two letters either letter may be
/// written in either case.
pub open spec fn symbol_element(s: Seq<char>) -> Element {
    if s.len() == 1 {
        one_letter_element(s[0])
    } else if s.len() == 2 {
        two_capitals_element(ascii_upper(s[0]), ascii_upper(s[1]))
    } else {
        Element::Unknown
    }
}

/// The capital form of an ASCII letter; any other character unchanged.
pub fn to_ascii_upper(c: char) -> (r: char)
    ensures
        r == ascii_upper(c),
{
    if c >= 'a' && c <= 'z' {
        let n: u32 = c as u32 - 32;
        assert(n < 0x80);
        n as u8 as char
    } else {
        c
    }
}

/// Looks a symbol up among the symbols of one letter.
pub fn element_of_letter(c: char) -> (r: Element)
    ensures
        r == one_letter_element(c),
{
    match c {
        'H' => Element::H,
        'B' => Element::B,
        'C' => Element::C,
        'N' => Element::N,
        'O' => Element::O,
        'F' => Element::F,
        'P' => Element::P,
        'S' => Element::S,
        'K' => Element::K,
        _ => Element::Unknown,
    }
}

/// Looks a symbol up among the symbols of two letters, in either case.
pub fn element_of_letters(a: char, b: char) -> (r: Element)
    ensures
        r == two_capitals_element(ascii_upper(a), ascii_upper(b)),
{
    let a: char = to_ascii_upper(a);
    let b: char = to_ascii_upper(b);
    match (a, b) {
        ('H', 'E') => Element::He,
        ('L', 'I') => Element::Li,
        ('B', 'E') => Element::Be,
        ('N', 'E') => Element::Ne,
        ('N', 'A') => Element::Na,
        ('M', 'G') => Element::Mg,
        ('A', 'L') => Element::Al,
        ('S', 'I') => Element::Si,
        ('C', 'L') => Element::Cl,
        ('A', 'R') => Element::Ar,
        ('C', 'A') => Element::Ca,
        ('F', 'E') => Element::Fe,
        ('C', 'U') => Element::Cu,
        ('Z', 'N') => Element::Zn,
        _ => Element::Unknown,
    }
}

/// The element that the trimmed symbol `s` names.
pub fn element_of_symbol(s: &[char]) -> (r: Element)
    ensures
        r == symbol_element(s@),
{
    if s.len() == 1 {
        element_of_letter(s[0])
    } else if s.len() == 2 {
        element_of_letters(s[0], s[1])
    } else {
        Element::Unknown
    }
}

impl Element {
    /// Decodes an element symbol; white space around it is ignored, and
    /// whatever the table does not hold is `Unknown`.
    pub fn from_symbol(symbol: &str) -> (r: Self)
        ensures
            r == symbol_element(trimmed(symbol@)),
    {
        let chars = to_chars(symbol);
        element_of_symbol(trim(chars.as_slice()))
    }

    /// The characters of the element's symbol; `Unknown` spells its name.
    pub open spec fn symbol_chars(self) -> Seq<char> {
        match self {
            Element::H => seq!['H'],
            Element::He => seq!['H', 'e'],
            Element::Li => seq!['L', 'i'],
            Element::Be => seq!['B', 'e'],
            Element::B => seq!['B'],
            Element::C => seq!['C'],
            Element::N => seq!['N'],
            Element::O => seq!['O'],
            Element::F => seq!['F'],
            Element::Ne => seq!['N', 'e'],
            Element::Na => seq!['N', 'a'],
            Element::Mg => seq!['M', 'g'],
            Element::Al => seq!['A', 'l'],
            Element::Si => seq!['S', 'i'],
            Element::P => seq!['P'],
            Element::S => seq!['S'],
            Element::Cl => seq!['C', 'l'],
            Element::Ar => seq!['A', 'r'],
            Element::K => seq!['K'],
            Element::Ca => seq!['C', 'a'],
            Element::Fe => seq!['F', 'e'],
            Element::Cu => seq!['C', 'u'],
            Element::Zn => seq!['Z', 'n'],
            Element::Unknown => seq!['U', 'n', 'k', 'n', 'o', 'w', 'n'],
        }
    }
}

impl Element {
    /// The symbol of the element, as it is written; `Unknown` is spelled
    /// out.
    pub fn symbol(&self) -> (r: Vec<char>)
        ensures
            r@ == self.symbol_chars(),
    {
        let r: Vec<char> = match self {
            Element::H => vec!['H'],
            Element::He => vec!['H', 'e'],
            Element::Li => vec!['L', 'i'],
            Element::Be => vec!['B', 'e'],
            Element::B => vec!['B'],
            Element::C => vec!['C'],
            Element::N => vec!['N'],
            Element::O => vec!['O'],
            Element::F => vec!['F'],
            Element::Ne => vec!['N', 'e'],
            Element::Na => vec!['N', 'a'],
            Element::Mg => vec!['M', 'g'],
            Element::Al => vec!['A', 'l'],
            Element::Si => vec!['S', 'i'],
            Element::P => vec!['P'],
            Element::S => vec!['S'],
            Element::Cl => vec!['C', 'l'],
            Element::Ar => vec!['A', 'r'],
            Element::K => vec!['K'],
            Element::Ca => vec!['C', 'a'],
            Element::Fe => vec!['F', 'e'],
            Element::Cu => vec!['C', 'u'],
            Element::Zn => vec!['Z', 'n'],
            Element::Unknown => vec!['U', 'n', 'k', 'n', 'o', 'w', 'n'],
        };
        assert(r@ =~= self.symbol_chars());
        r
    }

    /// The symbol of the element as a string; `Unknown` is spelled out.
    pub fn name(&self) -> (r: String)
        ensures
            r@ == self.symbol_chars(),
    {
        let chars = self.symbol();
        string_of(chars.as_slice())
    }
}

/// Every element of the table is found again under its own symbol.
pub proof fn lemma_symbol_round_trip(e: Element)
    requires
        e != Element::Unknown,
    ensures
        symbol_element(e.symbol_chars()) == e,
{
}

} // verus!
