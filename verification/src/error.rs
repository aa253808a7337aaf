//! What the passes refuse.
use crate::text;
use vstd::prelude::*;
use vstd::string::StringExecFns;

verus! {

#[derive(Debug)]
pub enum RelinkError {
    /// Two relocations at one address.
    DuplicateRelocation(u32),
    /// No section of the image holds the address.
    NoSectionAt(u32),
    /// A range that its section does not hold.
    RangeOutsideSection(u32, u32),
    /// A relocation in the part of a section that has no bytes.
    RelocationInZeroFill,
    /// A contribution without an address.
    MissingAddress,
    /// A split that leaves no contribution, with its unit.
    NotConcrete(String),
    /// An object file that cannot be read.
    Parse(object::read::Error),
    /// A function that has an auxiliary record before it gets one.
    UnexpectedAuxRecord,
    /// A relocation to a symbol that is not in the symbol table.
    InvalidRelocationSymbol(u32),
}

/// The reason for which `object` cannot read a file. Nothing is known of it.
#[verifier::external_type_specification]
#[verifier::external_body]
pub struct ExObjectError(object::read::Error);

pub enum ErrorModel {
    DuplicateRelocation(u32),
    NoSectionAt(u32),
    RangeOutsideSection(u32, u32),
    RelocationInZeroFill,
    MissingAddress,
    NotConcrete(Seq<char>),
    Parse,
    UnexpectedAuxRecord,
    InvalidRelocationSymbol(int),
}

impl View for RelinkError {
    type V = ErrorModel;

    open spec fn view(&self) -> ErrorModel {
        match *self {
            RelinkError::DuplicateRelocation(a) => ErrorModel::DuplicateRelocation(a),
            RelinkError::NoSectionAt(a) => ErrorModel::NoSectionAt(a),
            RelinkError::RangeOutsideSection(a, b) => ErrorModel::RangeOutsideSection(a, b),
            RelinkError::RelocationInZeroFill => ErrorModel::RelocationInZeroFill,
            RelinkError::MissingAddress => ErrorModel::MissingAddress,
            RelinkError::NotConcrete(unit) => ErrorModel::NotConcrete(unit@),
            RelinkError::Parse(_) => ErrorModel::Parse,
            RelinkError::UnexpectedAuxRecord => ErrorModel::UnexpectedAuxRecord,
            RelinkError::InvalidRelocationSymbol(i) => ErrorModel::InvalidRelocationSymbol(i as int),
        }
    }
}

/// What an error says. One of `object` speaks for itself.
pub open spec fn message_text(e: ErrorModel) -> Option<Seq<char>> {
    match e {
        ErrorModel::DuplicateRelocation(a) => Some("Duplicate relocation at 0x"@ + text::hex8(a)),
        ErrorModel::NoSectionAt(a) => Some("No section at address 0x"@ + text::hex8(a)),
        ErrorModel::RangeOutsideSection(a, b) => Some(
            "Section does not contain range 0x"@ + text::hex8(a) + "-0x"@ + text::hex8(b),
        ),
        ErrorModel::RelocationInZeroFill => Some("Relocation in zero-fill tail"@),
        ErrorModel::MissingAddress => Some("Missing contribution VA"@),
        ErrorModel::NotConcrete(unit) => Some(
            "Link mode requires concrete contributions: "@ + unit,
        ),
        ErrorModel::Parse => None,
        ErrorModel::UnexpectedAuxRecord => Some(
            "Unexpected existing COFF function auxiliary record"@,
        ),
        ErrorModel::InvalidRelocationSymbol(i) => Some(
            "Invalid COFF relocation symbol index "@ + text::decimal(i as nat),
        ),
    }
}

impl RelinkError {
    /// What this error says. One of `object` speaks for itself.
    pub fn message(&self) -> (r: Option<String>)
        ensures
            match r {
                Some(s) => message_text(self@) == Some(s@),
                None => message_text(self@) is None,
            },
    {
        match self {
            RelinkError::DuplicateRelocation(a) => {
                let mut s: String = String::from_str("Duplicate relocation at 0x");
                text::push_hex8(&mut s, *a);
                Some(s)
            },
            RelinkError::NoSectionAt(a) => {
                let mut s: String = String::from_str("No section at address 0x");
                text::push_hex8(&mut s, *a);
                Some(s)
            },
            RelinkError::RangeOutsideSection(a, b) => {
                let mut s: String = String::from_str("Section does not contain range 0x");
                text::push_hex8(&mut s, *a);
                s.append("-0x");
                text::push_hex8(&mut s, *b);
                Some(s)
            },
            RelinkError::RelocationInZeroFill => {
                Some(String::from_str("Relocation in zero-fill tail"))
            },
            RelinkError::MissingAddress => Some(String::from_str("Missing contribution VA")),
            RelinkError::NotConcrete(unit) => {
                let mut s: String = String::from_str("Link mode requires concrete contributions: ");
                s.append(unit.as_str());
                Some(s)
            },
            RelinkError::Parse(_) => None,
            RelinkError::UnexpectedAuxRecord => {
                Some(String::from_str("Unexpected existing COFF function auxiliary record"))
            },
            RelinkError::InvalidRelocationSymbol(i) => {
                let mut s: String = String::from_str("Invalid COFF relocation symbol index ");
                text::push_decimal(&mut s, *i as usize);
                Some(s)
            },
        }
    }
}

} // verus!
