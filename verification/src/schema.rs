//! Composites: a fixed set of fields whose child elements come in any order.
//!
//! A schema lists the fields of a composite in the order in which the
//! decoded values are handed back. Each field names the identifier of the
//! child element that carries it and says how that child's payload is read.
//! In the payload the children may stand in any order; each field has to
//! occur exactly once and nothing else may occur.

use vstd::prelude::*;
use crate::element::{id_and_size, spec_id_and_size};
use crate::error::DecodeError;
use crate::payload::{
    parse_binary_data, parse_str_data, parse_uint_data, spec_parse_binary_data,
    spec_parse_str_data, spec_parse_uint_data,
};

verus! {

/// How the payload of a field is read.
#[derive(Debug, Clone, Copy, PartialEq, Eq, Structural)]
pub enum FieldKind {
    /// As an unsigned integer of at most eight bytes.
    Unsigned,
    /// As a UTF-8 text.
    Text,
    /// As bytes that are not interpreted.
    Binary,
}

/// One field of a composite.
#[derive(Debug, Clone, Copy, PartialEq, Eq, Structural)]
pub struct Field {
    /// The identifier of the child element that carries the field.
    pub id: u64,
    /// How the payload of that child is read.
    pub kind: FieldKind,
}

/// The decoded value of a field.
#[derive(Debug, PartialEq, Eq)]
pub enum FieldValue {
    /// The value of a field read as an unsigned integer.
    Unsigned(u64),
    /// The value of a field read as a text.
    Text(String),
    /// The value of a field read as bytes.
    Binary(Vec<u8>),
}

/// The mathematical value of a [`FieldValue`].
pub enum FieldValueView {
    Unsigned(u64),
    Text(Seq<char>),
    Binary(Seq<u8>),
}

impl View for FieldValue {
    type V = FieldValueView;

    open spec fn view(&self) -> FieldValueView {
        match self {
            FieldValue::Unsigned(v) => FieldValueView::Unsigned(*v),
            FieldValue::Text(text) => FieldValueView::Text(text@),
            FieldValue::Binary(bytes) => FieldValueView::Binary(bytes@),
        }
    }
}

/// The values of a sequence of field values.
pub open spec fn field_views(values: Seq<FieldValue>) -> Seq<FieldValueView> {
    Seq::new(values.len(), |i: int| values[i]@)
}

/// The values of a sequence of slots, each of which may hold a field value.
pub open spec fn slot_views(slots: Seq<Option<FieldValue>>) -> Seq<Option<FieldValueView>> {
    Seq::new(
        slots.len(),
        |i: int|
            match slots[i] {
                Some(value) => Some(value@),
                None => None,
            },
    )
}

/// The position of the first field of `schema` that `id` names.
pub open spec fn spec_field_index(schema: Seq<Field>, id: u64) -> Option<int>
    decreases schema.len(),
{
    if schema.len() == 0 {
        None
    } else {
        match spec_field_index(schema.drop_last(), id) {
            Some(k) => Some(k),
            None => if schema.last().id == id {
                Some(schema.len() - 1)
            } else {
                None
            },
        }
    }
}

/// The value of a field of the given kind whose `size` payload bytes start
/// `s`.
pub open spec fn spec_parse_field(kind: FieldKind, s: Seq<u8>, size: u64) -> Result<
    FieldValueView,
    DecodeError,
> {
    match kind {
        FieldKind::Unsigned => match spec_parse_uint_data(s, size) {
            Ok(value) => Ok(FieldValueView::Unsigned(value)),
            Err(e) => Err(e),
        },
        FieldKind::Text => match spec_parse_str_data(s, size) {
            Ok(text) => Ok(FieldValueView::Text(text)),
            Err(e) => Err(e),
        },
        FieldKind::Binary => match spec_parse_binary_data(s, size) {
            Ok(bytes) => Ok(FieldValueView::Binary(bytes)),
            Err(e) => Err(e),
        },
    }
}

/// The slots of a composite after the children in `s` have been read into
/// `slots`, which has one slot for each field of `schema`.
///
/// The children are taken one after the other until `s` is used up. A child
/// that names no field, and a child that names a field whose slot is taken,
/// end the reading before their payload is looked at.
pub open spec fn spec_fill(
    schema: Seq<Field>,
    slots: Seq<Option<FieldValueView>>,
    s: Seq<u8>,
) -> Result<Seq<Option<FieldValueView>>, DecodeError>
    decreases s.len(),
{
    if s.len() == 0 {
        Ok(slots)
    } else {
        match spec_id_and_size(s) {
            Ok((head, id, size)) => match spec_field_index(schema, id) {
                Some(k) => if slots[k] is Some {
                    Err(DecodeError::DuplicateField)
                } else {
                    match spec_parse_field(schema[k].kind, s.skip(head as int), size) {
                        Ok(value) => spec_fill(
                            schema,
                            slots.update(k, Some(value)),
                            s.skip(head + size),
                        ),
                        Err(e) => Err(e),
                    }
                },
                None => Err(DecodeError::UnexpectedField),
            },
            Err(e) => Err(e),
        }
    }
}

/// As many empty slots as there are fields.
pub open spec fn empty_slots(n: nat) -> Seq<Option<FieldValueView>> {
    Seq::new(n, |i: int| None)
}

/// The values of the fields of `schema`, in the order of `schema`, that the
/// children in `s` give them.
pub open spec fn spec_compose(schema: Seq<Field>, s: Seq<u8>) -> Result<
    Seq<FieldValueView>,
    DecodeError,
> {
    match spec_fill(schema, empty_slots(schema.len()), s) {
        Ok(slots) => if forall|i: int| 0 <= i < slots.len() ==> (#[trigger] slots[i]) is Some {
            Ok(Seq::new(slots.len(), |i: int| slots[i]->Some_0))
        } else {
            Err(DecodeError::MissingField)
        },
        Err(e) => Err(e),
    }
}

/// Whether `value` is what a field of the given kind holds.
pub open spec fn has_kind(value: FieldValueView, kind: FieldKind) -> bool {
    match kind {
        FieldKind::Unsigned => value is Unsigned,
        FieldKind::Text => value is Text,
        FieldKind::Binary => value is Binary,
    }
}

/// Whether there is one slot for each field and each taken slot holds a value
/// of the kind of its field.
pub open spec fn slots_fit(schema: Seq<Field>, slots: Seq<Option<FieldValueView>>) -> bool {
    &&& slots.len() == schema.len()
    &&& forall|k: int|
        0 <= k < slots.len() ==> ((#[trigger] slots[k]) matches Some(value) ==> has_kind(
            value,
            schema[k].kind,
        ))
}

/// The field that an identifier names has that identifier, and no field
/// before it has.
pub proof fn lemma_field_index(schema: Seq<Field>, id: u64)
    ensures
        match spec_field_index(schema, id) {
            Some(k) => {
                &&& 0 <= k < schema.len()
                &&& schema[k].id == id
                &&& forall|j: int| 0 <= j < k ==> (#[trigger] schema[j]).id != id
            },
            None => forall|j: int| 0 <= j < schema.len() ==> (#[trigger] schema[j]).id != id,
        },
    decreases schema.len(),
{
    if schema.len() > 0 {
        lemma_field_index(schema.drop_last(), id);
        assert(forall|j: int|
            0 <= j < schema.len() - 1 ==> schema.drop_last()[j] == #[trigger] schema[j]);
    }
}

/// Reading children into slots keeps one slot for each field, and puts into
/// a slot only a value of the kind of its field.
pub proof fn lemma_fill_fits(schema: Seq<Field>, slots: Seq<Option<FieldValueView>>, s: Seq<u8>)
    requires
        slots_fit(schema, slots),
        spec_fill(schema, slots, s) is Ok,
    ensures
        slots_fit(schema, spec_fill(schema, slots, s)->Ok_0),
    decreases s.len(),
{
    if s.len() > 0 {
        let (head, id, size) = spec_id_and_size(s)->Ok_0;
        let k = spec_field_index(schema, id)->Some_0;
        lemma_field_index(schema, id);
        let value = spec_parse_field(schema[k].kind, s.skip(head as int), size)->Ok_0;
        lemma_fill_fits(schema, slots.update(k, Some(value)), s.skip(head + size));
    }
}

/// A composite has one value for each field, of the kind of that field.
pub proof fn lemma_compose_kinds(schema: Seq<Field>, s: Seq<u8>)
    requires
        spec_compose(schema, s) is Ok,
    ensures
        spec_compose(schema, s)->Ok_0.len() == schema.len(),
        forall|i: int|
            0 <= i < schema.len() ==> has_kind(
                #[trigger] spec_compose(schema, s)->Ok_0[i],
                schema[i].kind,
            ),
{
    lemma_fill_fits(schema, empty_slots(schema.len()), s);
    let slots = spec_fill(schema, empty_slots(schema.len()), s)->Ok_0;
    assert forall|i: int| 0 <= i < schema.len() implies has_kind(
        #[trigger] spec_compose(schema, s)->Ok_0[i],
        schema[i].kind,
    ) by {
        assert(slots[i] is Some);
    }
}

/// Finds the first field of `schema` that `id` names.
pub fn field_index(schema: &[Field], id: u64) -> (r: Option<usize>)
    ensures
        match spec_field_index(schema@, id) {
            Some(k) => r == Some(k as usize) && 0 <= k < schema@.len() && schema@[k].id == id,
            None => r is None,
        },
{
    let mut i: usize = 0;
    while i < schema.len()
        invariant
            i <= schema@.len(),
            spec_field_index(schema@.take(i as int), id) is None,
        decreases schema@.len() - i,
    {
        proof {
            assert(schema@.take(i + 1).drop_last() =~= schema@.take(i as int));
        }
        if schema[i].id == id {
            proof {
                lemma_field_index_prefix(schema@, (i + 1) as nat, id);
            }
            return Some(i);
        }
        i += 1;
    }
    proof {
        assert(schema@.take(i as int) =~= schema@);
    }
    None
}

/// A field found among the first `n` fields is the field found in the whole
/// schema.
pub proof fn lemma_field_index_prefix(schema: Seq<Field>, n: nat, id: u64)
    requires
        n <= schema.len(),
        spec_field_index(schema.take(n as int), id) is Some,
    ensures
        spec_field_index(schema, id) == spec_field_index(schema.take(n as int), id),
    decreases schema.len(),
{
    if n < schema.len() {
        assert(schema.drop_last().take(n as int) =~= schema.take(n as int));
        lemma_field_index_prefix(schema.drop_last(), n, id);
    } else {
        assert(schema.take(n as int) =~= schema);
    }
}

/// Reads the payload of a field of the given kind.
pub fn parse_field<'a>(kind: FieldKind, input: &'a [u8], size: u64) -> (r: Result<
    (&'a [u8], FieldValue),
    DecodeError,
>)
    ensures
        match spec_parse_field(kind, input@, size) {
            Ok(value) => r matches Ok((rest, v)) && rest@ == input@.skip(size as int) && v@
                == value,
            Err(e) => r matches Err(x) && x == e,
        },
{
    match kind {
        FieldKind::Unsigned => match parse_uint_data(input, size) {
            Ok((rest, value)) => Ok((rest, FieldValue::Unsigned(value))),
            Err(e) => Err(e),
        },
        FieldKind::Text => match parse_str_data(input, size) {
            Ok((rest, text)) => Ok((rest, FieldValue::Text(text))),
            Err(e) => Err(e),
        },
        FieldKind::Binary => match parse_binary_data(input, size) {
            Ok((rest, bytes)) => Ok((rest, FieldValue::Binary(bytes))),
            Err(e) => Err(e),
        },
    }
}

/// Reads the fields of a composite from its payload.
///
/// `payload` is the whole payload of the composite and nothing else. The
/// result has one value for each field of `schema`, in the order of `schema`,
/// whatever the order of the children in `payload`.
pub fn compose(schema: &[Field], payload: &[u8]) -> (r: Result<Vec<FieldValue>, DecodeError>)
    ensures
        match spec_compose(schema@, payload@) {
            Ok(values) => r matches Ok(v) && field_views(v@) == values,
            Err(e) => r matches Err(x) && x == e,
        },
{
    let mut slots: Vec<Option<FieldValue>> = Vec::new();
    let mut made: usize = 0;
    while made < schema.len()
        invariant
            made <= schema@.len(),
            slots@.len() == made,
            forall|i: int| 0 <= i < made ==> (#[trigger] slots@[i]) is None,
        decreases schema@.len() - made,
    {
        slots.push(None);
        made += 1;
    }
    proof {
        assert(slot_views(slots@) =~= empty_slots(schema@.len()));
    }
    let mut remaining = payload;
    while remaining.len() > 0
        invariant
            slots@.len() == schema@.len(),
            spec_fill(schema@, slot_views(slots@), remaining@) == spec_fill(
                schema@,
                empty_slots(schema@.len()),
                payload@,
            ),
        decreases remaining@.len(),
    {
        let (after_head, id, size) = match id_and_size(remaining) {
            Ok(found) => found,
            Err(e) => {
                return Err(e);
            },
        };
        let k = match field_index(schema, id) {
            Some(k) => k,
            None => {
                return Err(DecodeError::UnexpectedField);
            },
        };
        if slots[k].is_some() {
            return Err(DecodeError::DuplicateField);
        }
        let (rest, value) = match parse_field(schema[k].kind, after_head, size) {
            Ok(found) => found,
            Err(e) => {
                return Err(e);
            },
        };
        proof {
            let head = spec_id_and_size(remaining@)->Ok_0.0;
            assert(remaining@.skip(head as int).skip(size as int) =~= remaining@.skip(
                head + size,
            ));
            assert(slot_views(slots@.update(k as int, Some(value))) =~= slot_views(
                slots@,
            ).update(k as int, Some(value@)));
        }
        slots[k] = Some(value);
        remaining = rest;
    }
    let ghost filled = slot_views(slots@);
    let mut values: Vec<FieldValue> = Vec::new();
    let mut i: usize = 0;
    while i < slots.len()
        invariant
            i <= slots@.len(),
            filled.len() == slots@.len(),
            spec_fill(schema@, empty_slots(schema@.len()), payload@) == Ok::<
                Seq<Option<FieldValueView>>,
                DecodeError,
            >(filled),
            values@.len() == i,
            forall|j: int| 0 <= j < i ==> (#[trigger] filled[j]) == Some(values@[j]@),
            forall|j: int| i <= j < slots@.len() ==> slot_views(slots@)[j] == #[trigger] filled[j],
        decreases slots@.len() - i,
    {
        match slots[i].take() {
            Some(value) => {
                values.push(value);
            },
            None => {
                assert(filled[i as int] is None);
                return Err(DecodeError::MissingField);
            },
        }
        i += 1;
    }
    proof {
        assert(field_views(values@) =~= Seq::new(filled.len(), |i: int| filled[i]->Some_0));
    }
    Ok(values)
}

} // verus!
