use vstd::prelude::*;

verus! {

/// Wire type of a field whose payload is one varint.
pub const WIRE_TYPE_VARINT: u8 = 0;

/// Wire type of a field whose payload is eight raw bytes.
pub const WIRE_TYPE_64BITS: u8 = 1;

/// Wire type of a field whose payload is a varint length and that many bytes.
pub const WIRE_TYPE_LENGTH_DELIMITED: u8 = 2;

/// Wire type of a field whose payload is four raw bytes.
pub const WIRE_TYPE_32BITS: u8 = 5;

/// A byte payload copied out of the input buffer.
#[derive(Debug)]
pub struct Binary {
    pub bin: Vec<u8>,
}

impl View for Binary {
    type V = Seq<u8>;

    open spec fn view(&self) -> Seq<u8> {
        self.bin@
    }
}

/// The payload of one field, by wire type.
#[derive(Debug)]
pub enum WireValue {
    Varint(u64),
    Fixed64(Binary),
    Fixed32(Binary),
    LengthDelimited(Binary),
}

/// A decoded field: its number, its wire type, and its payload, absent for the
/// group wire types and the unassigned ones, which carry none here.
#[derive(Debug)]
pub struct Field {
    pub field_number: u64,
    pub wire_type: u8,
    pub value: Option<WireValue>,
}

/// Mathematical model of a `WireValue`.
pub enum ValueView {
    Varint(u64),
    Fixed64(Seq<u8>),
    Fixed32(Seq<u8>),
    LengthDelimited(Seq<u8>),
}

/// Mathematical model of a `Field`.
pub struct FieldView {
    pub field_number: u64,
    pub wire_type: u8,
    pub value: Option<ValueView>,
}

impl View for WireValue {
    type V = ValueView;

    open spec fn view(&self) -> ValueView {
        match self {
            WireValue::Varint(x) => ValueView::Varint(*x),
            WireValue::Fixed64(b) => ValueView::Fixed64(b@),
            WireValue::Fixed32(b) => ValueView::Fixed32(b@),
            WireValue::LengthDelimited(b) => ValueView::LengthDelimited(b@),
        }
    }
}

impl View for Field {
    type V = FieldView;

    open spec fn view(&self) -> FieldView {
        FieldView {
            field_number: self.field_number,
            wire_type: self.wire_type,
            value: match self.value {
                Some(w) => Some(w@),
                None => None,
            },
        }
    }
}

/// The models of a sequence of fields, in order.
pub open spec fn fields_view(fs: Seq<Field>) -> Seq<FieldView> {
    fs.map_values(|f: Field| f@)
}

} // verus!
