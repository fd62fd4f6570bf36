//! Elements and the parser that reads them.

use vstd::prelude::*;
use vstd::slice::slice_subrange;
use crate::error::DecodeError;
use crate::payload::{
    parse_str_data, parse_uint_data, spec_parse_str_data, spec_parse_uint_data,
};
use crate::varint::{lemma_varint_prefix, spec_vid, spec_vint, vid, vint};

verus! {

/// Identifier of the EBML header, the master element a document starts with.
pub const ID_EBML: u64 = 0x1A45_DFA3;

/// Identifier of the version of EBML the document was written with.
pub const ID_EBML_VERSION: u64 = 0x4286;

/// Identifier of the lowest version of EBML a reader has to understand.
pub const ID_EBML_READ_VERSION: u64 = 0x42F7;

/// Identifier of the largest width of an identifier in the document.
pub const ID_EBML_MAX_ID_LENGTH: u64 = 0x42F2;

/// Identifier of the largest width of a size in the document.
pub const ID_EBML_MAX_SIZE_LENGTH: u64 = 0x42F3;

/// Identifier of the name of the document type.
pub const ID_DOC_TYPE: u64 = 0x4282;

/// Identifier of the version of the document type.
pub const ID_DOC_TYPE_VERSION: u64 = 0x4287;

/// Identifier of the lowest version of the document type a reader has to
/// understand.
pub const ID_DOC_TYPE_READ_VERSION: u64 = 0x4285;

/// What an element holds.
#[derive(Debug, PartialEq, Eq)]
pub enum ElementData {
    /// A signed integer.
    Signed(i64),
    /// An unsigned integer.
    Unsigned(u64),
    /// A binary64 number, kept as its bit pattern.
    Float(u64),
    /// A text that the format declares as plain. It is held to be UTF-8 and
    /// to nothing more.
    PlainString(String),
    /// A text in UTF-8.
    UTF8String(String),
    /// A point in time.
    Date(u64),
    /// The elements nested in a master element, in the order they were read.
    Master(Vec<Element>),
    /// Bytes that are not interpreted.
    Binary(Vec<u8>),
    /// The payload of an element whose identifier is not known was skipped.
    /// The identifier is repeated here.
    Unknown(u64),
}

/// One decoded element.
#[derive(Debug, PartialEq, Eq)]
pub struct Element {
    /// The identifier, marker bit included.
    pub id: u64,
    /// The number of payload bytes the element declares.
    pub size: u64,
    /// The decoded payload.
    pub data: ElementData,
}

/// The mathematical value of an [`ElementData`].
pub enum ElementDataView {
    Signed(i64),
    Unsigned(u64),
    Float(u64),
    PlainString(Seq<char>),
    UTF8String(Seq<char>),
    Date(u64),
    Master(Seq<ElementView>),
    Binary(Seq<u8>),
    Unknown(u64),
}

/// The mathematical value of an [`Element`].
pub struct ElementView {
    pub id: u64,
    pub size: u64,
    pub data: ElementDataView,
}

impl View for ElementData {
    type V = ElementDataView;

    open spec fn view(&self) -> ElementDataView
        decreases self,
    {
        match self {
            ElementData::Signed(v) => ElementDataView::Signed(*v),
            ElementData::Unsigned(v) => ElementDataView::Unsigned(*v),
            ElementData::Float(bits) => ElementDataView::Float(*bits),
            ElementData::PlainString(text) => ElementDataView::PlainString(text@),
            ElementData::UTF8String(text) => ElementDataView::UTF8String(text@),
            ElementData::Date(v) => ElementDataView::Date(*v),
            ElementData::Master(children) => ElementDataView::Master(
                first_views(*children, children.len() as nat),
            ),
            ElementData::Binary(bytes) => ElementDataView::Binary(bytes@),
            ElementData::Unknown(id) => ElementDataView::Unknown(*id),
        }
    }
}

/// The values of a sequence of elements.
pub open spec fn element_views(elements: Seq<Element>) -> Seq<ElementView> {
    Seq::new(elements.len(), |i: int| elements[i]@)
}

/// The values of the first `n` of `elements`.
pub open spec fn first_views(elements: Vec<Element>, n: nat) -> Seq<ElementView>
    decreases elements, n,
{
    if 0 < n <= elements.len() {
        first_views(elements, (n - 1) as nat).push(elements[n - 1]@)
    } else {
        Seq::empty()
    }
}

impl View for Element {
    type V = ElementView;

    open spec fn view(&self) -> ElementView
        decreases self,
    {
        ElementView { id: self.id, size: self.size, data: self.data@ }
    }
}

/// The identifier and the size that `s` starts with, and the number of bytes
/// the two occupy together.
pub open spec fn spec_id_and_size(s: Seq<u8>) -> Result<(nat, u64, u64), DecodeError> {
    match spec_vid(s) {
        Ok((id_width, id)) => match spec_vint(s.skip(id_width as int)) {
            Ok((size_width, size)) => Ok((id_width + size_width, id, size)),
            Err(e) => Err(e),
        },
        Err(e) => Err(e),
    }
}

/// The identifier and the size of the element that `s` starts with, and the
/// number of bytes before its payload. The whole payload has to be in `s`.
pub open spec fn spec_element_header(s: Seq<u8>) -> Result<(nat, u64, u64), DecodeError> {
    match spec_id_and_size(s) {
        Ok((head, id, size)) => if s.len() - head < size {
            Err(DecodeError::NeedMoreBytes)
        } else {
            Ok((head, id, size))
        },
        Err(e) => Err(e),
    }
}

/// Whether `id` names one of the header fields that hold an unsigned integer.
pub open spec fn is_unsigned_id(id: u64) -> bool {
    ||| id == ID_EBML_VERSION
    ||| id == ID_EBML_READ_VERSION
    ||| id == ID_EBML_MAX_ID_LENGTH
    ||| id == ID_EBML_MAX_SIZE_LENGTH
    ||| id == ID_DOC_TYPE_VERSION
    ||| id == ID_DOC_TYPE_READ_VERSION
}

/// Whether the decoder knows how to read the payload of an element `id`.
pub open spec fn is_known_id(id: u64) -> bool {
    id == ID_EBML || id == ID_DOC_TYPE || is_unsigned_id(id)
}

/// The payload of an element `id` whose `size` payload bytes start `s`.
///
/// The identifier picks the reading: the EBML header is a sequence of
/// elements, the document type is a text, the other header fields are
/// unsigned integers. The payload of any other element is passed over, and
/// only its identifier is kept.
pub open spec fn spec_parse_element_id(s: Seq<u8>, id: u64, size: u64) -> Result<
    ElementDataView,
    DecodeError,
>
    decreases s.len(), 1int,
{
    if s.len() < size {
        Err(DecodeError::NeedMoreBytes)
    } else if id == ID_EBML {
        match spec_parse_elements(s.take(size as int)) {
            Ok(children) => Ok(ElementDataView::Master(children)),
            Err(e) => Err(e),
        }
    } else if is_unsigned_id(id) {
        match spec_parse_uint_data(s, size) {
            Ok(value) => Ok(ElementDataView::Unsigned(value)),
            Err(e) => Err(e),
        }
    } else if id == ID_DOC_TYPE {
        match spec_parse_str_data(s, size) {
            Ok(text) => Ok(ElementDataView::PlainString(text)),
            Err(e) => Err(e),
        }
    } else {
        Ok(ElementDataView::Unknown(id))
    }
}

/// The elements that `s` is made of, in order. Every byte of `s` belongs to
/// one of them: the first error ends the reading.
pub open spec fn spec_parse_elements(s: Seq<u8>) -> Result<Seq<ElementView>, DecodeError>
    decreases s.len(), 0int,
{
    if s.len() == 0 {
        Ok(Seq::empty())
    } else {
        match spec_element_header(s) {
            Ok((head, id, size)) => match spec_parse_element_id(s.skip(head as int), id, size) {
                Ok(data) => match spec_parse_elements(s.skip(head + size)) {
                    Ok(others) => Ok(seq![ElementView { id, size, data }] + others),
                    Err(e) => Err(e),
                },
                Err(e) => Err(e),
            },
            Err(e) => Err(e),
        }
    }
}

/// The element at the start of `s` and the number of bytes it occupies.
pub open spec fn spec_parse_element(s: Seq<u8>) -> Result<(nat, ElementView), DecodeError> {
    match spec_element_header(s) {
        Ok((head, id, size)) => match spec_parse_element_id(s.skip(head as int), id, size) {
            Ok(data) => Ok(((head + size) as nat, ElementView { id, size, data })),
            Err(e) => Err(e),
        },
        Err(e) => Err(e),
    }
}

/// The payload of a master element of `size` bytes at the start of `s`: the
/// elements that those `size` bytes are made of.
pub open spec fn spec_parse_master(s: Seq<u8>, size: u64) -> Result<
    Seq<ElementView>,
    DecodeError,
> {
    if s.len() < size {
        Err(DecodeError::NeedMoreBytes)
    } else {
        spec_parse_elements(s.take(size as int))
    }
}

/// A sequence of elements is its first element followed by the sequence that
/// the bytes after it make.
pub proof fn lemma_parse_elements_unfold(s: Seq<u8>)
    requires
        s.len() > 0,
    ensures
        spec_parse_elements(s) == match spec_parse_element(s) {
            Ok((len, first)) => match spec_parse_elements(s.skip(len as int)) {
                Ok(others) => Ok(seq![first] + others),
                Err(e) => Err(e),
            },
            Err(e) => Err::<Seq<ElementView>, DecodeError>(e),
        },
{
}

/// The value of a master element lists the values of its children.
pub proof fn lemma_master_view(children: Vec<Element>)
    ensures
        ElementData::Master(children)@ == ElementDataView::Master(element_views(children@)),
{
    lemma_first_views(children, children@.len());
    assert(children@.take(children@.len() as int) =~= children@);
}

proof fn lemma_first_views(elements: Vec<Element>, n: nat)
    requires
        n <= elements@.len(),
    ensures
        first_views(elements, n) == element_views(elements@.take(n as int)),
    decreases n,
{
    if n > 0 {
        lemma_first_views(elements, (n - 1) as nat);
        assert(element_views(elements@.take(n as int)) =~= element_views(
            elements@.take(n - 1),
        ).push(elements@[n - 1]@));
    } else {
        assert(element_views(elements@.take(0)) =~= Seq::<ElementView>::empty());
    }
}

/// An element whose identifier is not known is read as such, whatever its
/// payload is. Exactly its declared size is passed over: in a sequence of
/// elements, the next element is read from the bytes after its payload.
pub proof fn lemma_unknown_element(s: Seq<u8>)
    requires
        spec_element_header(s) is Ok,
        !is_known_id(spec_element_header(s)->Ok_0.1),
    ensures
        ({
            let (head, id, size) = spec_element_header(s)->Ok_0;
            let unknown = ElementView { id, size, data: ElementDataView::Unknown(id) };
            &&& spec_parse_element(s) == Ok::<(nat, ElementView), DecodeError>(
                ((head + size) as nat, unknown),
            )
            &&& spec_parse_elements(s) == match spec_parse_elements(s.skip(head + size)) {
                Ok(others) => Ok(seq![unknown] + others),
                Err(e) => Err::<Seq<ElementView>, DecodeError>(e),
            }
        }),
{
    lemma_element_extent(s);
    lemma_parse_elements_unfold(s);
}

/// What comes after an identifier and a size does not change them.
pub proof fn lemma_id_and_size_prefix(s: Seq<u8>, t: Seq<u8>)
    requires
        spec_id_and_size(s) is Ok,
    ensures
        spec_id_and_size(s + t) == spec_id_and_size(s),
{
    let id_width = spec_vid(s)->Ok_0.0;
    lemma_varint_prefix(s, t);
    lemma_varint_prefix(s.skip(id_width as int), t);
    assert((s + t).skip(id_width as int) =~= s.skip(id_width as int) + t);
}

/// What comes after an element does not change it: an element that is read
/// from `s` is read from every input that starts with `s`, and it ends where
/// it ended in `s`.
pub proof fn lemma_parse_element_prefix(s: Seq<u8>, t: Seq<u8>)
    requires
        spec_parse_element(s) is Ok,
    ensures
        spec_parse_element(s + t) == spec_parse_element(s),
{
    let (head, id, size) = spec_element_header(s)->Ok_0;
    lemma_id_and_size_prefix(s, t);
    let payload = s.skip(head as int);
    assert((s + t).skip(head as int) =~= payload + t);
    assert((payload + t).take(size as int) =~= payload.take(size as int));
}

/// An element occupies at least the two bytes of its identifier and size,
/// and no more bytes than there are.
pub proof fn lemma_element_extent(s: Seq<u8>)
    ensures
        spec_element_header(s) matches Ok((head, _, size)) ==> 2 <= head <= 16 && head + size
            <= s.len(),
        spec_parse_element(s) matches Ok((len, _)) ==> 2 <= len <= s.len(),
{
}

/// Reads the identifier and the size that an element starts with.
pub fn id_and_size<'a>(input: &'a [u8]) -> (r: Result<(&'a [u8], u64, u64), DecodeError>)
    ensures
        match spec_id_and_size(input@) {
            Ok((head, id, size)) => r matches Ok((rest, i, n)) && rest@ == input@.skip(
                head as int,
            ) && i == id && n == size,
            Err(e) => r matches Err(x) && x == e,
        },
{
    let (after_id, id) = match vid(input) {
        Ok(found) => found,
        Err(e) => {
            return Err(e);
        },
    };
    let (after_size, size) = match vint(after_id) {
        Ok(found) => found,
        Err(e) => {
            return Err(e);
        },
    };
    proof {
        let id_width = spec_vid(input@)->Ok_0.0;
        let size_width = spec_vint(after_id@)->Ok_0.0;
        assert(input@.skip(id_width as int).skip(size_width as int) =~= input@.skip(
            (id_width + size_width) as int,
        ));
    }
    Ok((after_size, id, size))
}

/// Reads the payload of an element that holds an unsigned integer.
pub fn parse_uint<'a>(input: &'a [u8], size: u64) -> (r: Result<
    (&'a [u8], ElementData),
    DecodeError,
>)
    ensures
        match spec_parse_uint_data(input@, size) {
            Ok(value) => r matches Ok((rest, data)) && rest@ == input@.skip(size as int)
                && data@ == ElementDataView::Unsigned(value),
            Err(e) => r matches Err(x) && x == e,
        },
{
    match parse_uint_data(input, size) {
        Ok((rest, value)) => Ok((rest, ElementData::Unsigned(value))),
        Err(e) => Err(e),
    }
}

/// Reads the payload of an element that holds a text.
pub fn parse_str<'a>(input: &'a [u8], size: u64) -> (r: Result<
    (&'a [u8], ElementData),
    DecodeError,
>)
    ensures
        match spec_parse_str_data(input@, size) {
            Ok(text) => r matches Ok((rest, data)) && rest@ == input@.skip(size as int)
                && data@ == ElementDataView::PlainString(text),
            Err(e) => r matches Err(x) && x == e,
        },
{
    match parse_str_data(input, size) {
        Ok((rest, text)) => Ok((rest, ElementData::PlainString(text))),
        Err(e) => Err(e),
    }
}

/// Reads the payload of a master element: the first `size` bytes of `input`,
/// taken apart into elements until none of those bytes is left.
///
/// Bytes after the first `size` are never looked at, so no nested element
/// reaches into what follows its parent.
pub fn parse_master<'a>(input: &'a [u8], size: u64) -> (r: Result<
    (&'a [u8], ElementData),
    DecodeError,
>)
    ensures
        match spec_parse_master(input@, size) {
            Ok(children) => r matches Ok((rest, data)) && rest@ == input@.skip(size as int)
                && data@ == ElementDataView::Master(children),
            Err(e) => r matches Err(x) && x == e,
        },
    decreases input@.len(), 1int,
{
    if (input.len() as u64) < size {
        return Err(DecodeError::NeedMoreBytes);
    }
    let n = size as usize;
    let payload = slice_subrange(input, 0, n);
    let mut children: Vec<Element> = Vec::new();
    let mut remaining = payload;
    while remaining.len() > 0
        invariant
            size <= input@.len(),
            payload@ == input@.take(size as int),
            remaining@.len() <= input@.len(),
            match spec_parse_elements(remaining@) {
                Ok(others) => spec_parse_elements(payload@) == Ok::<
                    Seq<ElementView>,
                    DecodeError,
                >(element_views(children@) + others),
                Err(e) => spec_parse_elements(payload@) == Err::<Seq<ElementView>, DecodeError>(e),
            },
        decreases remaining@.len(),
    {
        let ghost before = element_views(children@);
        proof {
            lemma_parse_elements_unfold(remaining@);
        }
        match parse_element(remaining) {
            Ok((rest, element)) => {
                proof {
                    let others = spec_parse_elements(rest@);
                    if others is Ok {
                        assert(before + (seq![element@] + others->Ok_0) =~= element_views(
                            children@.push(element),
                        ) + others->Ok_0);
                    }
                }
                children.push(element);
                remaining = rest;
            },
            Err(e) => {
                return Err(e);
            },
        }
    }
    proof {
        lemma_master_view(children);
        assert(element_views(children@) + Seq::<ElementView>::empty() =~= element_views(
            children@,
        ));
    }
    let data = ElementData::Master(children);
    Ok((slice_subrange(input, n, input.len()), data))
}

/// Reads the payload of an element `id` of `size` bytes.
pub fn parse_element_id<'a>(input: &'a [u8], id: u64, size: u64) -> (r: Result<
    (&'a [u8], ElementData),
    DecodeError,
>)
    ensures
        match spec_parse_element_id(input@, id, size) {
            Ok(value) => r matches Ok((rest, data)) && rest@ == input@.skip(size as int)
                && data@ == value,
            Err(e) => r matches Err(x) && x == e,
        },
    decreases input@.len(), 2int,
{
    if (input.len() as u64) < size {
        return Err(DecodeError::NeedMoreBytes);
    }
    match id {
        ID_EBML => parse_master(input, size),
        ID_EBML_VERSION => parse_uint(input, size),
        ID_EBML_READ_VERSION => parse_uint(input, size),
        ID_EBML_MAX_ID_LENGTH => parse_uint(input, size),
        ID_EBML_MAX_SIZE_LENGTH => parse_uint(input, size),
        ID_DOC_TYPE => parse_str(input, size),
        ID_DOC_TYPE_VERSION => parse_uint(input, size),
        ID_DOC_TYPE_READ_VERSION => parse_uint(input, size),
        _ => Ok((slice_subrange(input, size as usize, input.len()), ElementData::Unknown(id))),
    }
}

/// Reads one element: its identifier, its size and its payload.
///
/// Returns the element and the bytes after its payload. An element whose
/// identifier is not known is not an error: its payload is passed over.
pub fn parse_element<'a>(input: &'a [u8]) -> (r: Result<(&'a [u8], Element), DecodeError>)
    ensures
        match spec_parse_element(input@) {
            Ok((len, value)) => r matches Ok((rest, element)) && rest@ == input@.skip(len as int)
                && element@ == value,
            Err(e) => r matches Err(x) && x == e,
        },
    decreases input@.len(), 0int,
{
    let (payload, id, size) = match id_and_size(input) {
        Ok(found) => found,
        Err(e) => {
            return Err(e);
        },
    };
    let (rest, data) = match parse_element_id(payload, id, size) {
        Ok(found) => found,
        Err(e) => {
            return Err(e);
        },
    };
    proof {
        let head = spec_id_and_size(input@)->Ok_0.0;
        assert(input@.skip(head as int).skip(size as int) =~= input@.skip(head + size));
    }
    Ok((rest, Element { id, size, data }))
}

} // verus!
