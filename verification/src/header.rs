//! The EBML header: the composite that opens a document.

use vstd::prelude::*;
use vstd::pervasive::unreached;
use vstd::slice::slice_subrange;
use crate::children::{
    all_children, child_id, lemma_child_seen_before, lemma_child_taken_away,
    lemma_order_of_children,
};
use crate::element::{
    spec_id_and_size, ID_DOC_TYPE, ID_DOC_TYPE_READ_VERSION, ID_DOC_TYPE_VERSION, ID_EBML, ID_EBML_MAX_ID_LENGTH,
    ID_EBML_MAX_SIZE_LENGTH, ID_EBML_READ_VERSION, ID_EBML_VERSION,
};
use crate::error::DecodeError;
use crate::schema::{
    compose, empty_slots, field_views, lemma_compose_kinds, spec_compose, spec_fill, Field,
    FieldKind, FieldValue, FieldValueView,
};
use crate::varint::{spec_vid, spec_vint, vid, vint};

verus! {

/// What the header of a document says about the document.
#[derive(Debug, Clone, PartialEq, Eq)]
pub struct EBMLHeader {
    /// The version of EBML the document was written with.
    pub version: u64,
    /// The lowest version of EBML a reader has to understand.
    pub read_version: u64,
    /// The largest width in bytes of an identifier in the document.
    pub max_id_length: u64,
    /// The largest width in bytes of a size in the document.
    pub max_size_length: u64,
    /// The name of the document type.
    pub doc_type: String,
    /// The version of the document type.
    pub doc_type_version: u64,
    /// The lowest version of the document type a reader has to understand.
    pub doc_type_read_version: u64,
}

/// The mathematical value of an [`EBMLHeader`].
pub struct EBMLHeaderView {
    pub version: u64,
    pub read_version: u64,
    pub max_id_length: u64,
    pub max_size_length: u64,
    pub doc_type: Seq<char>,
    pub doc_type_version: u64,
    pub doc_type_read_version: u64,
}

impl View for EBMLHeader {
    type V = EBMLHeaderView;

    open spec fn view(&self) -> EBMLHeaderView {
        EBMLHeaderView {
            version: self.version,
            read_version: self.read_version,
            max_id_length: self.max_id_length,
            max_size_length: self.max_size_length,
            doc_type: self.doc_type@,
            doc_type_version: self.doc_type_version,
            doc_type_read_version: self.doc_type_read_version,
        }
    }
}

/// The seven fields of the header, in the order of the fields of
/// [`EBMLHeader`].
pub open spec fn spec_header_schema() -> Seq<Field> {
    seq![
        Field { id: ID_EBML_VERSION, kind: FieldKind::Unsigned },
        Field { id: ID_EBML_READ_VERSION, kind: FieldKind::Unsigned },
        Field { id: ID_EBML_MAX_ID_LENGTH, kind: FieldKind::Unsigned },
        Field { id: ID_EBML_MAX_SIZE_LENGTH, kind: FieldKind::Unsigned },
        Field { id: ID_DOC_TYPE, kind: FieldKind::Text },
        Field { id: ID_DOC_TYPE_VERSION, kind: FieldKind::Unsigned },
        Field { id: ID_DOC_TYPE_READ_VERSION, kind: FieldKind::Unsigned },
    ]
}

/// The header that the children in `payload` describe.
pub open spec fn spec_compose_header(payload: Seq<u8>) -> Result<EBMLHeaderView, DecodeError> {
    match spec_compose(spec_header_schema(), payload) {
        Ok(values) => Ok(
            EBMLHeaderView {
                version: values[0]->Unsigned_0,
                read_version: values[1]->Unsigned_0,
                max_id_length: values[2]->Unsigned_0,
                max_size_length: values[3]->Unsigned_0,
                doc_type: values[4]->Text_0,
                doc_type_version: values[5]->Unsigned_0,
                doc_type_read_version: values[6]->Unsigned_0,
            },
        ),
        Err(e) => Err(e),
    }
}

/// The header at the start of `s` and the number of bytes it occupies.
///
/// The element at the start of `s` has to be the EBML header; any other
/// identifier is reported before its size is read. The whole payload has to
/// be in `s`.
pub open spec fn spec_ebml_header(s: Seq<u8>) -> Result<(nat, EBMLHeaderView), DecodeError> {
    match spec_vid(s) {
        Ok((id_width, id)) => if id != ID_EBML {
            Err(DecodeError::UnexpectedField)
        } else {
            match spec_vint(s.skip(id_width as int)) {
                Ok((size_width, size)) => {
                    let head = id_width + size_width;
                    if s.len() - head < size {
                        Err(DecodeError::NeedMoreBytes)
                    } else {
                        match spec_compose_header(s.subrange(head as int, head + size)) {
                            Ok(header) => Ok(((head + size) as nat, header)),
                            Err(e) => Err(e),
                        }
                    }
                },
                Err(e) => Err(e),
            }
        },
        Err(e) => Err(e),
    }
}

/// The header does not depend on the order of its children. Of two payloads
/// made of the same children, either both describe a header or neither does,
/// and if they do, they describe the same header, field for field.
pub proof fn lemma_header_order_of_children(children: Seq<Seq<u8>>, shuffled: Seq<Seq<u8>>)
    requires
        all_children(children),
        shuffled.to_multiset() == children.to_multiset(),
    ensures
        spec_compose_header(shuffled.flatten()) is Ok <==> spec_compose_header(
            children.flatten(),
        ) is Ok,
        spec_compose_header(children.flatten()) is Ok ==> spec_compose_header(
            shuffled.flatten(),
        ) == spec_compose_header(children.flatten()),
{
    lemma_order_of_children(spec_header_schema(), children, shuffled);
}

/// A header payload from which one child was taken away misses a field.
pub proof fn lemma_header_child_taken_away(children: Seq<Seq<u8>>, i: int)
    requires
        all_children(children),
        0 <= i < children.len(),
        spec_compose_header(children.flatten()) is Ok,
    ensures
        spec_compose_header(children.remove(i).flatten()) == Err::<EBMLHeaderView, DecodeError>(
            DecodeError::MissingField,
        ),
{
    lemma_child_taken_away(spec_header_schema(), children, i);
}

/// After children of the header that were read without error, whatever
/// starts with the identifier of one of them is a duplicate, whether or not
/// all seven fields have been seen.
pub proof fn lemma_header_child_seen_before(seen: Seq<Seq<u8>>, i: int, next: Seq<u8>)
    requires
        all_children(seen),
        0 <= i < seen.len(),
        spec_fill(spec_header_schema(), empty_slots(7), seen.flatten()) is Ok,
        spec_id_and_size(next) is Ok,
        child_id(next) == child_id(seen[i]),
    ensures
        spec_compose_header(seen.flatten() + next) == Err::<EBMLHeaderView, DecodeError>(
            DecodeError::DuplicateField,
        ),
{
    lemma_child_seen_before(spec_header_schema(), seen, i, next);
}

/// The seven fields of the header.
pub fn header_schema() -> (r: [Field; 7])
    ensures
        r@ == spec_header_schema(),
{
    let schema = [
        Field { id: ID_EBML_VERSION, kind: FieldKind::Unsigned },
        Field { id: ID_EBML_READ_VERSION, kind: FieldKind::Unsigned },
        Field { id: ID_EBML_MAX_ID_LENGTH, kind: FieldKind::Unsigned },
        Field { id: ID_EBML_MAX_SIZE_LENGTH, kind: FieldKind::Unsigned },
        Field { id: ID_DOC_TYPE, kind: FieldKind::Text },
        Field { id: ID_DOC_TYPE_VERSION, kind: FieldKind::Unsigned },
        Field { id: ID_DOC_TYPE_READ_VERSION, kind: FieldKind::Unsigned },
    ];
    assert(schema@ =~= spec_header_schema());
    schema
}

fn take_unsigned(values: &mut Vec<FieldValue>) -> (r: u64)
    requires
        old(values)@.len() > 0,
        old(values)@.last()@ is Unsigned,
    ensures
        final(values)@ == old(values)@.drop_last(),
        old(values)@.last()@ == FieldValueView::Unsigned(r),
{
    match values.pop() {
        Some(FieldValue::Unsigned(v)) => v,
        _ => unreached(),
    }
}

fn take_text(values: &mut Vec<FieldValue>) -> (r: String)
    requires
        old(values)@.len() > 0,
        old(values)@.last()@ is Text,
    ensures
        final(values)@ == old(values)@.drop_last(),
        old(values)@.last()@ == FieldValueView::Text(r@),
{
    match values.pop() {
        Some(FieldValue::Text(text)) => text,
        _ => unreached(),
    }
}

/// Reads the header from its payload: seven children, in any order.
pub fn compose_header(payload: &[u8]) -> (r: Result<EBMLHeader, DecodeError>)
    ensures
        match spec_compose_header(payload@) {
            Ok(header) => r matches Ok(h) && h@ == header,
            Err(e) => r matches Err(x) && x == e,
        },
{
    let schema = header_schema();
    let mut values = match compose(schema.as_slice(), payload) {
        Ok(values) => values,
        Err(e) => {
            return Err(e);
        },
    };
    let ghost all = field_views(values@);
    proof {
        lemma_compose_kinds(spec_header_schema(), payload@);
        assert(forall|i: int| 0 <= i < 7 ==> all[i] == values@[i]@);
    }
    let doc_type_read_version = take_unsigned(&mut values);
    let doc_type_version = take_unsigned(&mut values);
    let doc_type = take_text(&mut values);
    let max_size_length = take_unsigned(&mut values);
    let max_id_length = take_unsigned(&mut values);
    let read_version = take_unsigned(&mut values);
    let version = take_unsigned(&mut values);
    Ok(
        EBMLHeader {
            version,
            read_version,
            max_id_length,
            max_size_length,
            doc_type,
            doc_type_version,
            doc_type_read_version,
        },
    )
}

/// Reads the EBML header that a document starts with.
///
/// Returns the header and the bytes after it.
pub fn ebml_header<'a>(input: &'a [u8]) -> (r: Result<(&'a [u8], EBMLHeader), DecodeError>)
    ensures
        match spec_ebml_header(input@) {
            Ok((len, header)) => r matches Ok((rest, h)) && rest@ == input@.skip(len as int)
                && h@ == header,
            Err(e) => r matches Err(x) && x == e,
        },
{
    let (after_id, id) = match vid(input) {
        Ok(found) => found,
        Err(e) => {
            return Err(e);
        },
    };
    if id != ID_EBML {
        return Err(DecodeError::UnexpectedField);
    }
    let (after_size, size) = match vint(after_id) {
        Ok(found) => found,
        Err(e) => {
            return Err(e);
        },
    };
    if (after_size.len() as u64) < size {
        return Err(DecodeError::NeedMoreBytes);
    }
    let n = size as usize;
    proof {
        let id_width = spec_vid(input@)->Ok_0.0;
        let size_width = spec_vint(after_id@)->Ok_0.0;
        let head = id_width + size_width;
        assert(after_size@ =~= input@.skip(head as int));
        assert(after_size@.subrange(0, n as int) =~= input@.subrange(head as int, head + size));
        assert(after_size@.subrange(n as int, after_size@.len() as int) =~= input@.skip(
            head + size,
        ));
    }
    let header = match compose_header(slice_subrange(after_size, 0, n)) {
        Ok(header) => header,
        Err(e) => {
            return Err(e);
        },
    };
    Ok((slice_subrange(after_size, n, after_size.len()), header))
}

} // verus!
