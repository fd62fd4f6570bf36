//! A payload seen as a list of children.
//!
//! [`spec_fill`] walks over the bytes of a payload. What it does to the slots
//! of a composite is easier to say over the children that the payload is made
//! of: each child fills one slot, and no child looks at a slot other than its
//! own. The statements here follow from that: the order of the children does
//! not matter, a payload from which a child was taken away misses a field,
//! and a child for a field that was seen before is a duplicate.

use vstd::prelude::*;
use vstd::seq_lib::{to_multiset_build, to_multiset_contains, to_multiset_len, to_multiset_remove};
use crate::element::{lemma_id_and_size_prefix, spec_id_and_size};
use crate::error::DecodeError;
use crate::schema::{
    empty_slots, lemma_field_index, spec_compose, spec_field_index, spec_fill, spec_parse_field,
    Field, FieldKind, FieldValueView,
};

verus! {

/// Whether `c` is one whole child: an identifier, a size, and exactly as many
/// payload bytes as the size says.
pub open spec fn is_child(c: Seq<u8>) -> bool {
    match spec_id_and_size(c) {
        Ok((head, _, size)) => c.len() == head + size,
        Err(_) => false,
    }
}

/// Whether each of `children` is one whole child.
pub open spec fn all_children(children: Seq<Seq<u8>>) -> bool {
    forall|i: int| 0 <= i < children.len() ==> is_child(#[trigger] children[i])
}

/// The identifier that `c` starts with.
pub open spec fn child_id(c: Seq<u8>) -> u64 {
    spec_id_and_size(c)->Ok_0.1
}

/// The value that the child `c` gives to its field.
pub open spec fn spec_child_value(schema: Seq<Field>, c: Seq<u8>) -> Result<
    FieldValueView,
    DecodeError,
> {
    let (head, id, size) = spec_id_and_size(c)->Ok_0;
    let k = spec_field_index(schema, id)->Some_0;
    spec_parse_field(schema[k].kind, c.skip(head as int), size)
}

/// The slots after the one child `c` has been read into `slots`.
#[verifier::opaque]
pub open spec fn spec_read_child(
    schema: Seq<Field>,
    slots: Seq<Option<FieldValueView>>,
    c: Seq<u8>,
) -> Result<Seq<Option<FieldValueView>>, DecodeError> {
    spec_fill(schema, slots, c)
}

/// The slots after `children` have been read into `slots` one after the
/// other.
pub open spec fn spec_read_children(
    schema: Seq<Field>,
    slots: Seq<Option<FieldValueView>>,
    children: Seq<Seq<u8>>,
) -> Result<Seq<Option<FieldValueView>>, DecodeError>
    decreases children.len(),
{
    if children.len() == 0 {
        Ok(slots)
    } else {
        match spec_read_child(schema, slots, children.first()) {
            Ok(filled) => spec_read_children(schema, filled, children.drop_first()),
            Err(e) => Err(e),
        }
    }
}

/// What comes after the payload of a field does not change its value.
pub proof fn lemma_parse_field_prefix(kind: FieldKind, s: Seq<u8>, t: Seq<u8>, size: u64)
    requires
        size <= s.len(),
    ensures
        spec_parse_field(kind, s + t, size) == spec_parse_field(kind, s, size),
{
    assert((s + t).take(size as int) =~= s.take(size as int));
}

/// Reading a whole child and what follows it is reading the child and then
/// reading what follows.
pub proof fn lemma_fill_child(
    schema: Seq<Field>,
    slots: Seq<Option<FieldValueView>>,
    c: Seq<u8>,
    t: Seq<u8>,
)
    requires
        is_child(c),
    ensures
        spec_fill(schema, slots, c + t) == match spec_read_child(schema, slots, c) {
            Ok(filled) => spec_fill(schema, filled, t),
            Err(e) => Err(e),
        },
{
    reveal(spec_read_child);
    let (head, id, size) = spec_id_and_size(c)->Ok_0;
    lemma_id_and_size_prefix(c, t);
    assert((c + t).skip(head as int) =~= c.skip(head as int) + t);
    assert((c + t).skip(head + size) =~= t);
    assert(c.skip(head + size) =~= Seq::<u8>::empty());
    match spec_field_index(schema, id) {
        Some(k) => {
            lemma_parse_field_prefix(schema[k].kind, c.skip(head as int), t, size);
            if slots[k] is None {
                match spec_parse_field(schema[k].kind, c.skip(head as int), size) {
                    Ok(value) => {
                        let filled = slots.update(k, Some(value));
                        assert(spec_fill(schema, filled, Seq::<u8>::empty()) == Ok::<
                            Seq<Option<FieldValueView>>,
                            DecodeError,
                        >(filled));
                    },
                    Err(_) => {},
                }
            }
        },
        None => {},
    }
}

/// Reading the bytes of a list of children is reading the children one after
/// the other.
pub proof fn lemma_fill_flatten(
    schema: Seq<Field>,
    slots: Seq<Option<FieldValueView>>,
    children: Seq<Seq<u8>>,
    t: Seq<u8>,
)
    requires
        all_children(children),
    ensures
        spec_fill(schema, slots, children.flatten() + t) == match spec_read_children(
            schema,
            slots,
            children,
        ) {
            Ok(filled) => spec_fill(schema, filled, t),
            Err(e) => Err(e),
        },
    decreases children.len(),
{
    if children.len() == 0 {
        assert(children.flatten() + t =~= t);
    } else {
        let c = children.first();
        let rest = children.drop_first();
        assert(children.flatten() + t =~= c + (rest.flatten() + t));
        lemma_fill_child(schema, slots, c, rest.flatten() + t);
        match spec_read_child(schema, slots, c) {
            Ok(filled) => {
                lemma_fill_flatten(schema, filled, rest, t);
            },
            Err(_) => {},
        }
    }
}

/// A child is read without error exactly if it names a field, the slot of
/// that field is empty and its payload is a value of that field. It then
/// puts the value into the slot and leaves every other slot as it was.
pub proof fn lemma_read_child(schema: Seq<Field>, slots: Seq<Option<FieldValueView>>, c: Seq<u8>)
    requires
        is_child(c),
        slots.len() == schema.len(),
    ensures
        spec_read_child(schema, slots, c) is Ok <==> {
            &&& spec_field_index(schema, child_id(c)) matches Some(k)
            &&& slots[k] is None
            &&& spec_child_value(schema, c) is Ok
        },
        spec_read_child(schema, slots, c) matches Ok(filled) ==> {
            let k = spec_field_index(schema, child_id(c))->Some_0;
            &&& 0 <= k < schema.len()
            &&& filled == slots.update(k, Some(spec_child_value(schema, c)->Ok_0))
        },
{
    reveal(spec_read_child);
    let (head, id, size) = spec_id_and_size(c)->Ok_0;
    lemma_field_index(schema, id);
    assert(c.skip(head + size) =~= Seq::<u8>::empty());
    match spec_field_index(schema, id) {
        Some(k) => {
            if slots[k] is None {
                match spec_parse_field(schema[k].kind, c.skip(head as int), size) {
                    Ok(value) => {
                        let filled = slots.update(k, Some(value));
                        assert(spec_fill(schema, filled, Seq::<u8>::empty()) == Ok::<
                            Seq<Option<FieldValueView>>,
                            DecodeError,
                        >(filled));
                    },
                    Err(_) => {},
                }
            }
        },
        None => {},
    }
}

/// Two children that are read one after the other without error can be read
/// the other way round, with the same slots at the end.
pub proof fn lemma_swap_children(
    schema: Seq<Field>,
    slots: Seq<Option<FieldValueView>>,
    a: Seq<u8>,
    b: Seq<u8>,
)
    requires
        is_child(a),
        is_child(b),
        slots.len() == schema.len(),
        spec_read_child(schema, slots, a) is Ok,
        spec_read_child(schema, spec_read_child(schema, slots, a)->Ok_0, b) is Ok,
    ensures
        spec_read_child(schema, slots, b) is Ok,
        spec_read_child(schema, spec_read_child(schema, slots, b)->Ok_0, a) == spec_read_child(
            schema,
            spec_read_child(schema, slots, a)->Ok_0,
            b,
        ),
{
    let after_a = spec_read_child(schema, slots, a)->Ok_0;
    lemma_read_child(schema, slots, a);
    lemma_read_child(schema, after_a, b);
    lemma_read_child(schema, slots, b);
    let after_b = spec_read_child(schema, slots, b)->Ok_0;
    lemma_read_child(schema, after_b, a);
    let ka = spec_field_index(schema, child_id(a))->Some_0;
    let kb = spec_field_index(schema, child_id(b))->Some_0;
    let va = Some(spec_child_value(schema, a)->Ok_0);
    let vb = Some(spec_child_value(schema, b)->Ok_0);
    assert(slots.update(kb, vb).update(ka, va) =~= slots.update(ka, va).update(kb, vb));
}

/// A child of a list that is read without error can be read first instead,
/// with the same slots at the end.
pub proof fn lemma_move_to_front(
    schema: Seq<Field>,
    slots: Seq<Option<FieldValueView>>,
    children: Seq<Seq<u8>>,
    i: int,
)
    requires
        all_children(children),
        slots.len() == schema.len(),
        0 <= i < children.len(),
        spec_read_children(schema, slots, children) is Ok,
    ensures
        spec_read_children(schema, slots, seq![children[i]] + children.remove(i))
            == spec_read_children(schema, slots, children),
    decreases i,
{
    if i == 0 {
        assert(seq![children[0]] + children.remove(0) =~= children);
    } else {
        let a = children[0];
        let rest = children.drop_first();
        let b = rest[i - 1];
        let others = rest.remove(i - 1);
        let after_a = spec_read_child(schema, slots, a)->Ok_0;
        lemma_read_child(schema, slots, a);
        lemma_move_to_front(schema, after_a, rest, i - 1);
        let front = seq![b] + others;
        assert(front.first() == b);
        assert(front.drop_first() =~= others);
        assert(spec_read_child(schema, after_a, b) is Ok);
        let after_ab = spec_read_child(schema, after_a, b)->Ok_0;
        assert(spec_read_children(schema, slots, children) == spec_read_children(
            schema,
            after_ab,
            others,
        ));
        lemma_swap_children(schema, slots, a, b);
        let after_b = spec_read_child(schema, slots, b)->Ok_0;
        let moved = seq![children[i]] + children.remove(i);
        let second = seq![a] + others;
        assert(moved.first() == b);
        assert(moved.drop_first() =~= second);
        assert(second.first() == a);
        assert(second.drop_first() =~= others);
        assert(spec_read_children(schema, after_b, second) == spec_read_children(
            schema,
            after_ab,
            others,
        ));
    }
}

/// The slots at the end do not depend on the order in which the children are
/// read.
pub proof fn lemma_read_children_shuffled(
    schema: Seq<Field>,
    slots: Seq<Option<FieldValueView>>,
    children: Seq<Seq<u8>>,
    shuffled: Seq<Seq<u8>>,
)
    requires
        all_children(children),
        slots.len() == schema.len(),
        shuffled.to_multiset() == children.to_multiset(),
        spec_read_children(schema, slots, children) is Ok,
    ensures
        spec_read_children(schema, slots, shuffled) == spec_read_children(
            schema,
            slots,
            children,
        ),
    decreases children.len(),
{
    to_multiset_len(shuffled);
    to_multiset_len(children);
    if children.len() > 0 {
        let x = shuffled[0];
        assert(shuffled.contains(x));
        to_multiset_contains(shuffled, x);
        to_multiset_contains(children, x);
        let i = choose|i: int| 0 <= i < children.len() && children[i] == x;
        lemma_move_to_front(schema, slots, children, i);
        let moved = seq![x] + children.remove(i);
        assert(moved.first() == x);
        assert(moved.drop_first() =~= children.remove(i));
        lemma_read_child(schema, slots, x);
        let after_x = spec_read_child(schema, slots, x)->Ok_0;
        assert(shuffled.remove(0) =~= shuffled.drop_first());
        to_multiset_remove(shuffled, 0);
        to_multiset_remove(children, i);
        lemma_read_children_shuffled(
            schema,
            after_x,
            children.remove(i),
            shuffled.drop_first(),
        );
    }
}

/// A list made of the same children as a list of whole children is a list of
/// whole children.
pub proof fn lemma_all_children_shuffled(children: Seq<Seq<u8>>, shuffled: Seq<Seq<u8>>)
    requires
        all_children(children),
        shuffled.to_multiset() == children.to_multiset(),
    ensures
        all_children(shuffled),
{
    assert forall|j: int| 0 <= j < shuffled.len() implies is_child(#[trigger] shuffled[j]) by {
        let x = shuffled[j];
        assert(shuffled.contains(x));
        to_multiset_contains(shuffled, x);
        to_multiset_contains(children, x);
    }
}

/// Reading two lists joined is reading one and then the other.
pub proof fn lemma_read_children_concat(
    schema: Seq<Field>,
    slots: Seq<Option<FieldValueView>>,
    x: Seq<Seq<u8>>,
    y: Seq<Seq<u8>>,
)
    ensures
        spec_read_children(schema, slots, x + y) == match spec_read_children(schema, slots, x) {
            Ok(filled) => spec_read_children(schema, filled, y),
            Err(e) => Err(e),
        },
    decreases x.len(),
{
    if x.len() == 0 {
        assert(x + y =~= y);
    } else {
        assert((x + y).first() == x.first());
        assert((x + y).drop_first() =~= x.drop_first() + y);
        match spec_read_child(schema, slots, x.first()) {
            Ok(filled) => {
                lemma_read_children_concat(schema, filled, x.drop_first(), y);
            },
            Err(_) => {},
        }
    }
}

/// Children that are read without error leave a slot that was taken as it
/// was, and take the slot of each of their fields.
pub proof fn lemma_read_children_slots(
    schema: Seq<Field>,
    slots: Seq<Option<FieldValueView>>,
    children: Seq<Seq<u8>>,
)
    requires
        all_children(children),
        slots.len() == schema.len(),
        spec_read_children(schema, slots, children) is Ok,
    ensures
        ({
            let filled = spec_read_children(schema, slots, children)->Ok_0;
            &&& filled.len() == slots.len()
            &&& forall|k: int|
                0 <= k < slots.len() && (#[trigger] slots[k]) is Some ==> filled[k] == slots[k]
            &&& forall|i: int|
                0 <= i < children.len() ==> {
                    let k = spec_field_index(schema, child_id(#[trigger] children[i]));
                    k is Some && 0 <= k->Some_0 < schema.len() && filled[k->Some_0] is Some
                }
        }),
    decreases children.len(),
{
    if children.len() > 0 {
        let c = children.first();
        let rest = children.drop_first();
        lemma_read_child(schema, slots, c);
        let after = spec_read_child(schema, slots, c)->Ok_0;
        lemma_read_children_slots(schema, after, rest);
        let filled = spec_read_children(schema, slots, children)->Ok_0;
        assert forall|k: int| 0 <= k < slots.len() && (#[trigger] slots[k]) is Some implies filled[k]
            == slots[k] by {
            assert(after[k] == slots[k]);
        }
        assert forall|i: int| 0 <= i < children.len() implies {
            let k = spec_field_index(schema, child_id(#[trigger] children[i]));
            k is Some && 0 <= k->Some_0 < schema.len() && filled[k->Some_0] is Some
        } by {
            if i == 0 {
                let k = spec_field_index(schema, child_id(c))->Some_0;
                assert(after[k] is Some);
            } else {
                assert(children[i] == rest[i - 1]);
            }
        }
    }
}

/// A payload from which one child was taken away misses a field.
pub proof fn lemma_child_taken_away(schema: Seq<Field>, children: Seq<Seq<u8>>, i: int)
    requires
        all_children(children),
        0 <= i < children.len(),
        spec_compose(schema, children.flatten()) is Ok,
    ensures
        spec_compose(schema, children.remove(i).flatten()) == Err::<
            Seq<FieldValueView>,
            DecodeError,
        >(DecodeError::MissingField),
{
    let slots = empty_slots(schema.len());
    let none = Seq::<u8>::empty();
    let c = children[i];
    let others = children.remove(i);
    let last = others.push(c);
    assert(children.flatten() + none =~= children.flatten());
    assert(others.flatten() + none =~= others.flatten());
    lemma_fill_flatten(schema, slots, children, none);
    assert(last.to_multiset() == children.to_multiset()) by {
        to_multiset_remove(children, i);
        to_multiset_build(others, c);
        assert(children.contains(c));
        to_multiset_contains(children, c);
        assert(children.to_multiset().remove(c).insert(c) =~= children.to_multiset());
    }
    lemma_read_children_shuffled(schema, slots, children, last);
    assert(last =~= others + seq![c]);
    lemma_read_children_concat(schema, slots, others, seq![c]);
    assert(all_children(others));
    let before = spec_read_children(schema, slots, others)->Ok_0;
    lemma_read_children_slots(schema, slots, others);
    assert(seq![c].first() == c);
    assert(seq![c].drop_first() =~= Seq::<Seq<u8>>::empty());
    lemma_read_child(schema, before, c);
    let k = spec_field_index(schema, child_id(c))->Some_0;
    assert(before[k] is None);
    lemma_fill_flatten(schema, slots, others, none);
}

/// After children that were read without error, whatever starts with the
/// identifier of one of them is a duplicate, before its size or payload is
/// looked at and whether or not every field has been seen.
pub proof fn lemma_child_seen_before(
    schema: Seq<Field>,
    seen: Seq<Seq<u8>>,
    i: int,
    next: Seq<u8>,
)
    requires
        all_children(seen),
        0 <= i < seen.len(),
        spec_fill(schema, empty_slots(schema.len()), seen.flatten()) is Ok,
        spec_id_and_size(next) is Ok,
        child_id(next) == child_id(seen[i]),
    ensures
        spec_compose(schema, seen.flatten() + next) == Err::<Seq<FieldValueView>, DecodeError>(
            DecodeError::DuplicateField,
        ),
{
    let slots = empty_slots(schema.len());
    let none = Seq::<u8>::empty();
    assert(seen.flatten() + none =~= seen.flatten());
    lemma_fill_flatten(schema, slots, seen, none);
    lemma_fill_flatten(schema, slots, seen, next);
    lemma_read_children_slots(schema, slots, seen);
    let k = spec_field_index(schema, child_id(seen[i]));
    assert(k is Some);
}

proof fn lemma_composed_in_another_order(
    schema: Seq<Field>,
    children: Seq<Seq<u8>>,
    shuffled: Seq<Seq<u8>>,
)
    requires
        all_children(children),
        shuffled.to_multiset() == children.to_multiset(),
        spec_compose(schema, children.flatten()) is Ok,
    ensures
        spec_compose(schema, shuffled.flatten()) == spec_compose(schema, children.flatten()),
{
    let slots = empty_slots(schema.len());
    let none = Seq::<u8>::empty();
    lemma_all_children_shuffled(children, shuffled);
    assert(children.flatten() + none =~= children.flatten());
    assert(shuffled.flatten() + none =~= shuffled.flatten());
    lemma_fill_flatten(schema, slots, children, none);
    lemma_fill_flatten(schema, slots, shuffled, none);
    lemma_read_children_shuffled(schema, slots, children, shuffled);
}

/// The order of the children of a composite does not matter. Of two
/// payloads made of the same children, either both are composites or neither
/// is, and if they are, they give every field the same value.
///
/// Which error is reported for a payload that is no composite does depend on
/// the order: it is the error of the first child that cannot be taken.
pub proof fn lemma_order_of_children(
    schema: Seq<Field>,
    children: Seq<Seq<u8>>,
    shuffled: Seq<Seq<u8>>,
)
    requires
        all_children(children),
        shuffled.to_multiset() == children.to_multiset(),
    ensures
        spec_compose(schema, shuffled.flatten()) is Ok <==> spec_compose(
            schema,
            children.flatten(),
        ) is Ok,
        spec_compose(schema, children.flatten()) is Ok ==> spec_compose(
            schema,
            shuffled.flatten(),
        ) == spec_compose(schema, children.flatten()),
{
    lemma_all_children_shuffled(children, shuffled);
    if spec_compose(schema, children.flatten()) is Ok {
        lemma_composed_in_another_order(schema, children, shuffled);
    } else if spec_compose(schema, shuffled.flatten()) is Ok {
        lemma_composed_in_another_order(schema, shuffled, children);
    }
}

} // verus!
