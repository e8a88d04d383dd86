//! What can be wrong with the text of a rule.
use vstd::prelude::*;

verus! {

/// The ways in which a field of a record is malformed.
#[derive(Clone, Copy, Debug, PartialEq, Eq, Structural)]
pub enum FormatError {
    /// An IP field has no `/` with a prefix length behind it.
    IpField,
    /// The prefix length of an IP field is not a number from 0 to 32.
    MaskValue,
    /// The address of an IP field is not four octets from 0 to 255.
    IpValue,
    /// A port field has no `:` with an upper bound behind it.
    PortField,
    /// A bound of a port field is not an integer, or the lower bound of a
    /// range other than the full one is no port number.
    PortValue,
    /// A protocol field has no `/` with a mask behind it.
    ProtocolField,
    /// A protocol or its mask is not `0x` and a hexadecimal number of at most
    /// eight bits.
    HexValue,
    /// The record has fewer than five fields.
    NotEnoughFields,
}

/// A malformed field of a record, by its position in the record. For a
/// record that is too short, the position is that of the first field that is
/// missing.
#[derive(Clone, Copy, Debug, PartialEq, Eq, Structural)]
pub struct RowError {
    pub field: usize,
    pub kind: FormatError,
}

/// A malformed field of an input, by the position of its record in the input
/// and its own position in the record.
#[derive(Clone, Copy, Debug, PartialEq, Eq, Structural)]
pub struct RecordError {
    pub record: usize,
    pub field: usize,
    pub kind: FormatError,
}

/// Why an input gives no output.
#[derive(Clone, Copy, Debug, PartialEq, Eq, Structural)]
pub enum InputError {
    /// The input cannot be read as records of text.
    Unreadable,
    /// A field of a record is malformed.
    Malformed(RecordError),
}

/// The words that describe each kind of malformed field.
pub open spec fn message_of(kind: FormatError) -> Seq<char> {
    match kind {
        FormatError::IpField => "Malformed IP field"@,
        FormatError::MaskValue => "Malformed mask value"@,
        FormatError::IpValue => "Malformed IP value"@,
        FormatError::PortField => "Malformed port field"@,
        FormatError::PortValue => "Malformed port value"@,
        FormatError::ProtocolField => "Malformed protocol field"@,
        FormatError::HexValue => "Malformed hex value"@,
        FormatError::NotEnoughFields => "Malformed input: not enough fields"@,
    }
}

impl FormatError {
    /// The words that describe this kind of malformed field.
    pub fn message(&self) -> (text: &'static str)
        ensures
            text@ == message_of(*self),
    {
        match self {
            FormatError::IpField => "Malformed IP field",
            FormatError::MaskValue => "Malformed mask value",
            FormatError::IpValue => "Malformed IP value",
            FormatError::PortField => "Malformed port field",
            FormatError::PortValue => "Malformed port value",
            FormatError::ProtocolField => "Malformed protocol field",
            FormatError::HexValue => "Malformed hex value",
            FormatError::NotEnoughFields => "Malformed input: not enough fields",
        }
    }
}

} // verus!
