//! Fields: the rows of a serializer.

use crate::decoder::{
    decoding_base, lemma_float32_decoder, select_decoder, Decoders, QuantizedFloat,
};
use crate::field_path::{path_views, FieldPath};
use crate::field_state::{
    comes_before, lemma_stored_under, lemma_stored_under_ordered, stored_under, tree_value,
    FieldState, Slot, States,
};
use crate::field_type::{
    lemma_type_round_trip, parse_type, type_text, well_formed, FieldType, FieldTypeView,
};
use crate::serializer::{
    resolve_from, serializer_decoder, serializer_name, serializer_type, Serializer,
};
use crate::text::{chars_of, pad4, parse_pad4, push_pad4, read_pad4, same_text, spells};
use std::rc::Rc;
use vstd::prelude::*;
use vstd::string::StringExecFns;

verus! {

/// How a field's values are laid out under its path.
#[derive(Clone, Copy, Debug, PartialEq, Eq)]
pub enum FieldModels {
    Simple,
    FixedArray,
    FixedTable,
    VariableArray,
    VariableTable,
}

/// The name of a model.
pub open spec fn model_label(model: FieldModels) -> Seq<char> {
    match model {
        FieldModels::Simple => "simple"@,
        FieldModels::FixedArray => "fixed-array"@,
        FieldModels::FixedTable => "fixed-table"@,
        FieldModels::VariableArray => "variable-array"@,
        FieldModels::VariableTable => "variable-table"@,
    }
}

/// Different models have different names.
pub proof fn lemma_labels_differ(a: FieldModels, b: FieldModels)
    requires
        a != b,
    ensures
        model_label(a) != model_label(b),
{
    reveal_strlit("simple");
    reveal_strlit("fixed-array");
    reveal_strlit("fixed-table");
    reveal_strlit("variable-array");
    reveal_strlit("variable-table");
    assert("simple"@.len() == 6);
    assert("fixed-array"@.len() == 11 && "fixed-table"@.len() == 11);
    assert("variable-array"@.len() == 14 && "variable-table"@.len() == 14);
    assert("fixed-array"@[6] != "fixed-table"@[6]);
    assert("variable-array"@[9] != "variable-table"@[9]);
}

impl FieldModels {
    /// The name of the model.
    pub fn as_string(&self) -> (label: &'static str)
        ensures
            label@ == model_label(*self),
    {
        match self {
            FieldModels::Simple => "simple",
            FieldModels::FixedArray => "fixed-array",
            FieldModels::FixedTable => "fixed-table",
            FieldModels::VariableArray => "variable-array",
            FieldModels::VariableTable => "variable-table",
        }
    }
}

/// Why a schema cannot be loaded.
#[derive(Clone, Copy, Debug, PartialEq, Eq)]
pub enum SchemaError {
    /// A decoder is asked for a field whose type is not resolved.
    UnresolvedType,
    /// A variable array has no element type.
    MissingGeneric,
    /// A table has no serializer for its rows.
    MissingSerializer,
}

/// One field of the flattened-serializer message, as it came off the wire. The names are
/// indices into the message's symbol table; the bounds are IEEE-754 bit patterns.
#[derive(Clone, Copy, Debug, PartialEq, Eq)]
pub struct FlattenedField {
    pub var_type_sym: Option<i32>,
    pub var_name_sym: Option<i32>,
    pub bit_count: Option<i32>,
    pub low_value: Option<u32>,
    pub high_value: Option<u32>,
    pub encode_flags: Option<i32>,
    pub field_serializer_name_sym: Option<i32>,
    pub field_serializer_version: Option<i32>,
    pub send_node_sym: Option<i32>,
    pub var_encoder_sym: Option<i32>,
}

/// One row of a serializer.
pub struct Field {
    pub parent: Option<String>,
    pub var_name: String,
    pub var_type: String,
    pub send_node: String,
    pub serializer_name: String,
    pub serializer_ver: i32,
    pub encoder: String,
    pub encoder_flags: Option<i32>,
    pub bit_count: Option<i32>,
    pub low_value: Option<u32>,
    pub high_value: Option<u32>,
    pub field_type: Option<Rc<FieldType>>,
    pub serializer: Option<Rc<Serializer>>,
    pub value: Option<i32>,
    pub model: FieldModels,
    pub decoder: Decoders,
    pub base_decoder: Decoders,
    pub child_decoder: Decoders,
}

/// The symbol that `sym` refers to: the empty string where there is no reference or it
/// points outside the table.
pub open spec fn symbol(symbols: Seq<String>, sym: Option<i32>) -> Seq<char> {
    match sym {
        Some(i) if 0 <= i < symbols.len() => symbols[i as int]@,
        _ => Seq::empty(),
    }
}

fn resolve_symbol(symbols: &Vec<String>, sym: Option<i32>) -> (name: String)
    ensures
        name@ == symbol(symbols@, sym),
{
    match sym {
        Some(i) => {
            if 0 <= i && (i as usize) < symbols.len() {
                symbols[i as usize].clone()
            } else {
                String::new()
            }
        },
        None => String::new(),
    }
}

/// The decoder that a field of the given model reads its own values with, where the
/// model asks for one chosen by type: `None` where the deciding type is not resolved.
pub open spec fn chosen_decoder(field: Field, generic: bool) -> Option<Decoders> {
    match decoding_base(field, generic) {
        None => None,
        Some(base) => Some(
            select_decoder(
                base,
                field.encoder@,
                field.bit_count,
                field.low_value,
                field.high_value,
                field.encoder_flags,
            ),
        ),
    }
}

/// Whether `base` names one of the vector containers.
pub open spec fn is_vector(base: Seq<char>) -> bool {
    base == "CUtlVector"@ || base == "CNetworkUtlVectorBase"@ || base
        == "CUtlVectorEmbeddedNetworkVar"@
}

/// The model that a field's type and serializer call for.
pub open spec fn natural_model(f: Field) -> FieldModels {
    if f.field_type is Some && f.field_type->0.array_size is Some {
        if f.serializer is Some {
            FieldModels::FixedTable
        } else {
            FieldModels::FixedArray
        }
    } else if f.field_type is Some && is_vector(f.field_type->0.base_name@) {
        if f.serializer is Some {
            FieldModels::VariableTable
        } else {
            FieldModels::VariableArray
        }
    } else if f.serializer is Some {
        FieldModels::FixedTable
    } else {
        FieldModels::Simple
    }
}

/// The field `f` with the model `model` and the decoders that go with it, or what `f`
/// lacks for that model.
pub open spec fn with_model(f: Field, model: FieldModels) -> Result<Field, SchemaError> {
    match model {
        FieldModels::Simple | FieldModels::FixedArray => match chosen_decoder(f, false) {
            Some(d) => Ok(Field { model: model, decoder: d, ..f }),
            None => Err(SchemaError::UnresolvedType),
        },
        FieldModels::FixedTable => if f.serializer is Some {
            Ok(Field { model: model, base_decoder: Decoders::Boolean, ..f })
        } else {
            Err(SchemaError::MissingSerializer)
        },
        FieldModels::VariableArray => if f.field_type is None {
            Err(SchemaError::UnresolvedType)
        } else {
            match chosen_decoder(f, true) {
                Some(d) => Ok(
                    Field {
                        model: model,
                        base_decoder: Decoders::Unsigned,
                        child_decoder: d,
                        ..f
                    },
                ),
                None => Err(SchemaError::MissingGeneric),
            }
        },
        FieldModels::VariableTable => if f.serializer is Some {
            Ok(Field { model: model, base_decoder: Decoders::Unsigned, ..f })
        } else {
            Err(SchemaError::MissingSerializer)
        },
    }
}

/// A field that was declared as `float32`, with a bit count strictly between 0 and 32
/// and no encoder name, and whose type is resolved, reads its values as a simple field
/// with the quantized decoder of that bit count and of its bounds and flags.
pub proof fn lemma_quantized_field(f: Field, bits: i32)
    requires
        f.var_type@ == "float32"@,
        f.field_type is Some,
        Some(f.field_type->0@) == parse_type(f.var_type@),
        f.encoder@ == Seq::<char>::empty(),
        f.bit_count == Some(bits),
        0 < bits < 32,
    ensures
        with_model(f, FieldModels::Simple) == Ok::<Field, SchemaError>(
            Field {
                model: FieldModels::Simple,
                decoder: Decoders::Quantized(
                    QuantizedFloat {
                        bit_count: bits as u32,
                        low: f.low_value,
                        high: f.high_value,
                        flags: f.encoder_flags,
                    },
                ),
                ..f
            },
        ),
{
    reveal_strlit("float32");
    let plainly = FieldTypeView {
        base_name: "float32"@,
        generic: None,
        array_size: None,
        pointer: false,
    };
    assert(well_formed(plainly)) by {
        assert("float32"@.len() == 7);
    }
    assert(type_text(plainly) =~= "float32"@);
    lemma_type_round_trip(plainly);
    lemma_float32_decoder(f.bit_count, f.low_value, f.high_value, f.encoder_flags);
    assert(f.field_type->0.base_name@ == "float32"@);
}

/// The fields of a field's serializer; none where it has no serializer.
pub open spec fn child_fields(f: Field) -> Seq<Rc<Field>> {
    match f.serializer {
        Some(s) => s.spec_fields(),
        None => Seq::empty(),
    }
}

/// A field's own type, where it is resolved.
pub open spec fn own_type(f: Field) -> Option<FieldType> {
    match f.field_type {
        Some(t) => Some(*t),
        None => None,
    }
}

/// The type of a field's elements, where the field's type is resolved and has one.
pub open spec fn element_type(f: Field) -> Option<FieldType> {
    match f.field_type {
        Some(t) => match t.generic {
            Some(inner) => Some(*inner),
            None => None,
        },
        None => None,
    }
}

/// The name of what the path `rest` leads to below the field `f`: the field's own name,
/// then, separated by dots, the zero-padded index of an array element or table row and
/// the name of what the rest of the path leads to in the table's serializer.
pub open spec fn field_name(f: Field, rest: Seq<u8>) -> Seq<char>
    decreases rest.len(), 1nat,
{
    f.var_name@ + (match f.model {
        FieldModels::Simple => Seq::empty(),
        FieldModels::FixedArray | FieldModels::VariableArray => if rest.len() == 1 {
            seq!['.'] + pad4(rest[0] as int)
        } else {
            Seq::empty()
        },
        FieldModels::FixedTable => if rest.len() >= 1 {
            seq!['.'] + serializer_name(child_fields(f), rest)
        } else {
            Seq::empty()
        },
        FieldModels::VariableTable => if rest.len() >= 2 {
            seq!['.'] + pad4(rest[0] as int) + seq!['.'] + serializer_name(
                child_fields(f),
                rest.skip(1),
            )
        } else if rest.len() == 1 {
            seq!['.'] + pad4(rest[0] as int)
        } else {
            Seq::empty()
        },
    })
}

/// The type of what the path `rest` leads to below the field `f`: `None` where a type on
/// the way is not resolved or the path leaves the schema.
pub open spec fn field_type_at(f: Field, rest: Seq<u8>) -> Option<FieldType>
    decreases rest.len(), 1nat,
{
    match f.model {
        FieldModels::Simple | FieldModels::FixedArray => own_type(f),
        FieldModels::FixedTable => if rest.len() >= 1 {
            serializer_type(child_fields(f), rest)
        } else {
            own_type(f)
        },
        FieldModels::VariableArray => if rest.len() == 1 {
            element_type(f)
        } else {
            own_type(f)
        },
        FieldModels::VariableTable => if rest.len() >= 2 {
            serializer_type(child_fields(f), rest.skip(1))
        } else {
            own_type(f)
        },
    }
}

/// The decoder that reads what the path `rest` leads to below the field `f`: `None`
/// where the path leaves the schema.
pub open spec fn field_decoder_at(f: Field, rest: Seq<u8>) -> Option<Decoders>
    decreases rest.len(), 1nat,
{
    match f.model {
        FieldModels::Simple | FieldModels::FixedArray => Some(f.decoder),
        FieldModels::FixedTable => if rest.len() >= 1 {
            serializer_decoder(child_fields(f), rest)
        } else {
            Some(f.base_decoder)
        },
        FieldModels::VariableArray => if rest.len() == 1 {
            Some(f.child_decoder)
        } else {
            Some(f.base_decoder)
        },
        FieldModels::VariableTable => if rest.len() >= 2 {
            serializer_decoder(child_fields(f), rest.skip(1))
        } else {
            Some(f.base_decoder)
        },
    }
}

/// The path below the field `f` that the name `name` stands for, in at most `room`
/// indices. Below an array the name is the zero-padded index of an element; below a table
/// of rows it is the zero-padded index of a row, a dot, and a name in the table's
/// serializer; below a single record it is a name in the record's serializer. A simple
/// field has nothing below it.
pub open spec fn field_resolve(f: Field, name: Seq<char>, room: nat) -> Option<Seq<u8>>
    decreases room, 1nat, 0nat,
{
    match f.model {
        FieldModels::Simple => None,
        FieldModels::FixedArray | FieldModels::VariableArray => match parse_pad4(name) {
            Some(n) if room >= 1 && n < 256 => Some(seq![n as u8]),
            _ => None,
        },
        FieldModels::FixedTable => resolve_from(child_fields(f), name, room, 0),
        FieldModels::VariableTable => if room >= 2 && name.len() >= 5 && name[4] == '.' {
            match parse_pad4(name.take(4)) {
                Some(n) if n < 256 => match resolve_from(
                    child_fields(f),
                    name.skip(5),
                    (room - 1) as nat,
                    0,
                ) {
                    Some(rest) => Some(seq![n as u8] + rest),
                    None => None,
                },
                _ => None,
            }
        } else {
            None
        },
    }
}

/// The paths that the field which stands at the path `p` contributes to the listing of
/// the state `tree`: the paths at or below `p` at which the state stores values, in
/// lexicographic order. Absent slots are skipped, whatever the field's model.
pub open spec fn field_paths(p: Seq<u8>, tree: Seq<Slot>) -> Seq<Seq<u8>> {
    stored_under(tree, p)
}

/// The number of indices that a path can still take from its deepest index on.
pub open spec fn room(path: Seq<u8>) -> nat {
    (8 - path.len()) as nat
}

impl Field {
    /// Whether the field has what its model needs: a variable array an element type, a
    /// table a serializer.
    pub open spec fn wf(self) -> bool {
        &&& self.model is VariableArray ==> self.field_type is Some
            && self.field_type->0.generic is Some
        &&& (self.model is FixedTable || self.model is VariableTable) ==> self.serializer is Some
    }

    /// The field that a wire descriptor describes: its names looked up in `symbols`, the
    /// send node `(root)` read as none, the model `Simple`, and the default decoders. Its
    /// type and serializer are not resolved yet.
    pub fn new(symbols: &Vec<String>, f: &FlattenedField) -> (field: Field)
        ensures
            field.parent is None,
            field.var_name@ == symbol(symbols@, f.var_name_sym),
            field.var_type@ == symbol(symbols@, f.var_type_sym),
            field.send_node@ == (if symbol(symbols@, f.send_node_sym) == "(root)"@ {
                Seq::<char>::empty()
            } else {
                symbol(symbols@, f.send_node_sym)
            }),
            field.serializer_name@ == symbol(symbols@, f.field_serializer_name_sym),
            field.serializer_ver == (match f.field_serializer_version {
                Some(v) => v,
                None => 0i32,
            }),
            field.encoder@ == symbol(symbols@, f.var_encoder_sym),
            field.encoder_flags == f.encode_flags,
            field.bit_count == f.bit_count,
            field.low_value == f.low_value,
            field.high_value == f.high_value,
            field.field_type is None,
            field.serializer is None,
            field.value is None,
            field.model == FieldModels::Simple,
            field.decoder == Decoders::Default,
            field.base_decoder == Decoders::Default,
            field.child_decoder == Decoders::Default,
            field.wf(),
    {
        let mut send_node: String = resolve_symbol(symbols, f.send_node_sym);
        if same_text(send_node.as_str(), "(root)") {
            send_node = String::new();
        }
        Field {
            parent: None,
            var_name: resolve_symbol(symbols, f.var_name_sym),
            var_type: resolve_symbol(symbols, f.var_type_sym),
            send_node,
            serializer_name: resolve_symbol(symbols, f.field_serializer_name_sym),
            serializer_ver: match f.field_serializer_version {
                Some(v) => v,
                None => 0,
            },
            encoder: resolve_symbol(symbols, f.var_encoder_sym),
            encoder_flags: f.encode_flags,
            bit_count: f.bit_count,
            low_value: f.low_value,
            high_value: f.high_value,
            field_type: None,
            serializer: None,
            value: None,
            model: FieldModels::Simple,
            decoder: Decoders::Default,
            base_decoder: Decoders::Default,
            child_decoder: Decoders::Default,
        }
    }

    /// The field's name.
    pub fn get_name(&self) -> (name: &str)
        ensures
            name@ == self.var_name@,
    {
        self.var_name.as_str()
    }

    /// Resolves the field's type: reads the type string that the field was declared with
    /// and keeps the type it denotes. Where the string denotes no type, the field is left
    /// as it was.
    pub fn resolve_type(&mut self) -> (res: Result<(), SchemaError>)
        ensures
            match parse_type(old(self).var_type@) {
                Some(t) => res is Ok && final(self).field_type is Some
                    && final(self).field_type->0@ == t
                    && *final(self) == (Field {
                    field_type: final(self).field_type,
                    ..*old(self)
                }),
                None => res == Err::<(), SchemaError>(SchemaError::UnresolvedType) && *final(self)
                    == *old(self),
            },
    {
        match FieldType::parse(self.var_type.as_str()) {
            Ok(t) => {
                self.field_type = Some(Rc::new(t));
                Ok(())
            },
            Err(_) => Err(SchemaError::UnresolvedType),
        }
    }

    /// The model that the field's type and serializer call for: an array where the type
    /// has a fixed length or is one of the vector containers, a table where such a field
    /// has a serializer for its elements; a single record where any other field has a
    /// serializer; and a simple field otherwise.
    pub fn choose_model(&self) -> (model: FieldModels)
        ensures
            model == natural_model(*self),
    {
        let nested: bool = self.serializer.is_some();
        match &self.field_type {
            Some(t) => {
                if t.array_size.is_some() {
                    return if nested {
                        FieldModels::FixedTable
                    } else {
                        FieldModels::FixedArray
                    };
                }
                let base: Vec<char> = chars_of(t.base_name.as_str());
                if spells(&base, "CUtlVector") || spells(&base, "CNetworkUtlVectorBase") || spells(
                    &base,
                    "CUtlVectorEmbeddedNetworkVar",
                ) {
                    return if nested {
                        FieldModels::VariableTable
                    } else {
                        FieldModels::VariableArray
                    };
                }
            },
            None => {},
        }
        if nested {
            FieldModels::FixedTable
        } else {
            FieldModels::Simple
        }
    }

    /// Gives the field its model and the decoders that go with it. A simple field and a
    /// fixed array read their values with the decoder chosen by the field's type; a
    /// single record is announced by a boolean; a variable array and a table of rows
    /// are announced by their length, an unsigned varint, and the elements of a variable
    /// array are read with the decoder chosen by the element type. Where the field lacks
    /// what the model needs, the field is left as it was.
    pub fn set_model(&mut self, model: FieldModels) -> (res: Result<(), SchemaError>)
        ensures
            match with_model(*old(self), model) {
                Ok(field) => res is Ok && *final(self) == field && final(self).wf(),
                Err(e) => res == Err::<(), SchemaError>(e) && *final(self) == *old(self),
            },
    {
        match model {
            FieldModels::Simple | FieldModels::FixedArray => {
                match Decoders::from_field(self, false) {
                    Some(d) => {
                        self.model = model;
                        self.decoder = d;
                        Ok(())
                    },
                    None => Err(SchemaError::UnresolvedType),
                }
            },
            FieldModels::FixedTable => {
                if self.serializer.is_none() {
                    return Err(SchemaError::MissingSerializer);
                }
                self.model = model;
                self.base_decoder = Decoders::Boolean;
                Ok(())
            },
            FieldModels::VariableArray => {
                if self.field_type.is_none() {
                    return Err(SchemaError::UnresolvedType);
                }
                match Decoders::from_field(self, true) {
                    Some(d) => {
                        self.model = model;
                        self.base_decoder = Decoders::Unsigned;
                        self.child_decoder = d;
                        Ok(())
                    },
                    None => Err(SchemaError::MissingGeneric),
                }
            },
            FieldModels::VariableTable => {
                if self.serializer.is_none() {
                    return Err(SchemaError::MissingSerializer);
                }
                self.model = model;
                self.base_decoder = Decoders::Unsigned;
                Ok(())
            },
        }
    }

    /// The name of what `fp` leads to below this field, where the indices of `fp` from
    /// position `pos` on are those below the field.
    pub fn get_name_for_field_path(&self, fp: &FieldPath, pos: usize) -> (name: String)
        requires
            pos <= fp@.len(),
        ensures
            name@ == field_name(*self, fp@.skip(pos as int)),
        decreases fp@.len() - pos, 1nat,
    {
        let len: usize = fp.len();
        let ghost rest = fp@.skip(pos as int);
        proof {
            reveal_strlit(".");
            if pos < len {
                assert(rest[0] == fp@[pos as int]);
                assert(rest.skip(1) =~= fp@.skip(pos + 1));
            }
        }
        let mut name: String = self.var_name.clone();
        match self.model {
            FieldModels::Simple => {},
            FieldModels::FixedArray | FieldModels::VariableArray => {
                if len == pos + 1 {
                    name.append(".");
                    push_pad4(&mut name, fp.get(pos) as u16);
                }
            },
            FieldModels::FixedTable => {
                if len > pos {
                    name.append(".");
                    match &self.serializer {
                        Some(s) => {
                            let tail: String = s.name_from(fp, pos);
                            name.append(tail.as_str());
                        },
                        None => {},
                    }
                }
            },
            FieldModels::VariableTable => {
                if len > pos {
                    name.append(".");
                    push_pad4(&mut name, fp.get(pos) as u16);
                    if len > pos + 1 {
                        name.append(".");
                        match &self.serializer {
                            Some(s) => {
                                let tail: String = s.name_from(fp, pos + 1);
                                name.append(tail.as_str());
                            },
                            None => {},
                        }
                    }
                }
            },
        }
        assert(name@ =~= field_name(*self, rest));
        name
    }

    /// The type of what `fp` leads to below this field, where the indices of `fp` from
    /// position `pos` on are those below the field.
    pub fn get_type_for_field_path(&self, fp: &FieldPath, pos: usize) -> (t: Option<&FieldType>)
        requires
            pos <= fp@.len(),
        ensures
            t is None <==> field_type_at(*self, fp@.skip(pos as int)) is None,
            t matches Some(r) ==> field_type_at(*self, fp@.skip(pos as int)) == Some(*r),
        decreases fp@.len() - pos, 1nat,
    {
        let len: usize = fp.len();
        proof {
            if pos < len {
                assert(fp@.skip(pos as int).skip(1) =~= fp@.skip(pos + 1));
            }
        }
        match self.model {
            FieldModels::Simple | FieldModels::FixedArray => self.own_type_ref(),
            FieldModels::FixedTable => {
                if len > pos {
                    match &self.serializer {
                        Some(s) => s.type_from(fp, pos),
                        None => None,
                    }
                } else {
                    self.own_type_ref()
                }
            },
            FieldModels::VariableArray => {
                if len == pos + 1 {
                    self.element_type_ref()
                } else {
                    self.own_type_ref()
                }
            },
            FieldModels::VariableTable => {
                if len > pos + 1 {
                    match &self.serializer {
                        Some(s) => s.type_from(fp, pos + 1),
                        None => None,
                    }
                } else {
                    self.own_type_ref()
                }
            },
        }
    }

    /// The decoder that reads what `fp` leads to below this field, where the indices of
    /// `fp` from position `pos` on are those below the field.
    pub fn get_decoder_for_field_path(&self, fp: &FieldPath, pos: usize) -> (d: Option<&Decoders>)
        requires
            pos <= fp@.len(),
        ensures
            d is None <==> field_decoder_at(*self, fp@.skip(pos as int)) is None,
            d matches Some(r) ==> field_decoder_at(*self, fp@.skip(pos as int)) == Some(*r),
        decreases fp@.len() - pos, 1nat,
    {
        let len: usize = fp.len();
        proof {
            if pos < len {
                assert(fp@.skip(pos as int).skip(1) =~= fp@.skip(pos + 1));
            }
        }
        match self.model {
            FieldModels::Simple | FieldModels::FixedArray => Some(&self.decoder),
            FieldModels::FixedTable => {
                if len > pos {
                    match &self.serializer {
                        Some(s) => s.decoder_from(fp, pos),
                        None => None,
                    }
                } else {
                    Some(&self.base_decoder)
                }
            },
            FieldModels::VariableArray => {
                if len == pos + 1 {
                    Some(&self.child_decoder)
                } else {
                    Some(&self.base_decoder)
                }
            },
            FieldModels::VariableTable => {
                if len > pos + 1 {
                    match &self.serializer {
                        Some(s) => s.decoder_from(fp, pos + 1),
                        None => None,
                    }
                } else {
                    Some(&self.base_decoder)
                }
            },
        }
    }

    fn own_type_ref(&self) -> (t: Option<&FieldType>)
        ensures
            t is None <==> own_type(*self) is None,
            t matches Some(r) ==> own_type(*self) == Some(*r),
    {
        match &self.field_type {
            Some(t) => Some(&**t),
            None => None,
        }
    }

    fn element_type_ref(&self) -> (t: Option<&FieldType>)
        ensures
            t is None <==> element_type(*self) is None,
            t matches Some(r) ==> element_type(*self) == Some(*r),
    {
        match &self.field_type {
            Some(t) => match &t.generic {
                Some(inner) => Some(&**inner),
                None => None,
            },
            None => None,
        }
    }

    /// Resolves the name that `name` holds from `offset` on to the path below this field,
    /// and writes that path into `fp` from its deepest index on. Returns whether the name
    /// stands for a path; where it does not, `fp` is left as it was.
    pub fn get_field_path_for_name(&self, fp: &mut FieldPath, name: &Vec<char>, offset: usize) -> (found:
        bool)
        requires
            offset <= name@.len(),
        ensures
            found <==> field_resolve(*self, name@.skip(offset as int), room(old(fp)@)) is Some,
            found ==> final(fp)@ == old(fp)@.drop_last() + field_resolve(
                *self,
                name@.skip(offset as int),
                room(old(fp)@),
            )->0,
            !found ==> *final(fp) == *old(fp),
        decreases 8 - old(fp)@.len(), 1nat,
    {
        let saved: FieldPath = *fp;
        let len: usize = fp.len();
        let total: usize = name.len();
        let ghost rest = name@.skip(offset as int);
        let found: bool = match self.model {
            FieldModels::Simple => false,
            FieldModels::FixedArray | FieldModels::VariableArray => {
                if total - offset == 4 {
                    assert(name@.subrange(offset as int, offset + 4) =~= rest);
                    match read_pad4(name, offset) {
                        Some(n) => {
                            if n < 256 {
                                fp.set(len - 1, n as u8);
                                assert(fp@ =~= old(fp)@.drop_last() + seq![n as u8]);
                                true
                            } else {
                                false
                            }
                        },
                        None => false,
                    }
                } else {
                    false
                }
            },
            FieldModels::FixedTable => {
                match &self.serializer {
                    Some(s) => s.resolve_in(fp, name, offset),
                    None => false,
                }
            },
            FieldModels::VariableTable => {
                if len < 7 && total - offset >= 5 && name[offset + 4] == '.' {
                    assert(rest[4] == name@[offset + 4]);
                    assert(name@.subrange(offset as int, offset + 4) =~= rest.take(4));
                    assert(rest.skip(5) =~= name@.skip(offset + 5));
                    match (read_pad4(name, offset), &self.serializer) {
                        (Some(n), Some(s)) => {
                            if n < 256 {
                                fp.set(len - 1, n as u8);
                                fp.down();
                                let ghost mid = fp@;
                                assert(mid.drop_last() =~= old(fp)@.drop_last() + seq![n as u8]);
                                assert(room(mid) == room(old(fp)@) - 1);
                                let below: bool = s.resolve_in(fp, name, offset + 5);
                                proof {
                                    if below {
                                        let tail = resolve_from(
                                            s.spec_fields(),
                                            rest.skip(5),
                                            room(mid),
                                            0,
                                        )->0;
                                        assert(fp@ =~= old(fp)@.drop_last() + (seq![n as u8]
                                            + tail));
                                    }
                                }
                                below
                            } else {
                                false
                            }
                        },
                        _ => {
                            assert(rest[4] == name@[offset + 4]);
                            false
                        },
                    }
                } else {
                    proof {
                        if total - offset >= 5 {
                            assert(rest[4] == name@[offset + 4]);
                        }
                    }
                    false
                }
            },
        };
        if !found {
            *fp = saved;
        }
        found
    }

    /// The paths that this field, which stands at `fp`, contributes to the listing of the
    /// state `st`: the paths at or below `fp` at which the state stores values, in
    /// lexicographic order. `fp` is used as the cursor and is the same afterwards.
    pub fn get_field_paths(&self, fp: &mut FieldPath, st: &FieldState) -> (paths: Vec<FieldPath>)
        ensures
            *final(fp) == *old(fp),
            path_views(paths@) == field_paths(old(fp)@, st.tree()),
            forall|q: Seq<u8>|
                path_views(paths@).contains(q) <==> (old(fp)@.len() <= q.len() <= 7 && q.take(
                    old(fp)@.len() as int,
                ) == old(fp)@ && tree_value(st.tree(), q) is Some),
            forall|a: int, b: int|
                0 <= a < b < paths@.len() ==> comes_before(
                    #[trigger] path_views(paths@)[a],
                    #[trigger] path_views(paths@)[b],
                ),
    {
        let ghost p = fp@;
        let len: usize = fp.len();
        proof {
            assert forall|q: Seq<u8>|
                stored_under(st.tree(), p).contains(q) <==> (p.len() <= q.len() <= 7 && q.take(
                    p.len() as int,
                ) == p && tree_value(st.tree(), q) is Some) by {
                lemma_stored_under(st.tree(), p, q);
            }
            assert forall|a: int, b: int|
                0 <= a < b < stored_under(st.tree(), p).len() implies comes_before(
                #[trigger] stored_under(st.tree(), p)[a],
                #[trigger] stored_under(st.tree(), p)[b],
            ) by {
                lemma_stored_under_ordered(st.tree(), p, a, b);
            }
        }
        let mut paths: Vec<FieldPath> = Vec::new();
        assert(path_views(paths@) =~= Seq::<Seq<u8>>::empty());
        match st.get(fp) {
            None => {},
            Some(States::Value(_)) => {
                paths.push(*fp);
                assert(path_views(paths@) =~= seq![p]);
            },
            Some(States::FieldState(below)) => {
                if len < 7 {
                    let saved: FieldPath = *fp;
                    fp.down();
                    assert(fp@.drop_last() =~= p);
                    paths = below.paths_below(fp);
                    *fp = saved;
                }
            },
        }
        paths
    }
}

} // verus!
