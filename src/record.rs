//! Records: one zero-initialised byte buffer per instance, read and written
//! field by field through a layout.

use crate::layout::{
    span_start, total_width, FieldSpec, KnownSize, Layout, TotalSize, TotalSizeIsMultipleOf8,
};
use crate::storage::{
    field_value, lemma_non_interference, lemma_round_trip, read_bits, truncated, write_bits,
    writes,
};
use crate::width::Specifier;
use vstd::prelude::*;

verus! {

/// An instance of a record type: a layout and a buffer of exactly the bytes
/// its fields take.
pub struct PackedRecord {
    layout: Layout,
    data: Vec<u8>,
}

impl PackedRecord {
    /// The record type's layout.
    pub closed spec fn layout(&self) -> Layout {
        self.layout
    }

    /// The buffer.
    pub closed spec fn bytes(&self) -> Seq<u8> {
        self.data@
    }

    /// The layout is well formed and the buffer has its exact size.
    pub closed spec fn wf(&self) -> bool {
        &&& self.layout.wf()
        &&& 8 * self.data@.len() == total_width(self.layout.schema())
    }

    /// The record type's fields.
    pub open spec fn schema(&self) -> Seq<FieldSpec> {
        self.layout().schema()
    }

    /// The value of field `i`.
    pub open spec fn field(&self, i: int) -> u64 {
        field_value(self.bytes(), span_start(self.schema(), i), self.schema()[i].width as nat)
    }

    /// A record of the given type with every bit zero.
    pub fn new(layout: Layout) -> (r: PackedRecord)
        requires
            layout.wf(),
        ensures
            r.wf(),
            r.layout() == layout,
            r.bytes() == Seq::new((total_width(layout.schema()) / 8) as nat, |i: int| 0u8),
    {
        proof {
            layout.lemma_valid();
        }
        let len = layout.total_size().byte_len();
        let mut data: Vec<u8> = Vec::new();
        let mut i: usize = 0;
        while i < len
            invariant
                i <= len,
                data@ == Seq::new(i as nat, |k: int| 0u8),
            decreases len - i,
        {
            data.push(0u8);
            i = i + 1;
            proof {
                assert(data@ =~= Seq::new(i as nat, |k: int| 0u8));
            }
        }
        PackedRecord { layout, data }
    }

    /// The buffer: bit `p` of the record is bit `p % 8` of byte `p / 8`.
    pub fn as_bytes(&self) -> (r: &[u8])
        ensures
            r@ == self.bytes(),
    {
        self.data.as_slice()
    }

    /// The record type's layout.
    pub fn get_layout(&self) -> (r: &Layout)
        ensures
            *r == self.layout(),
    {
        &self.layout
    }

    /// Reads the `width` bits at bit `offset`.
    pub fn read(&self, offset: usize, width: usize) -> (r: u64)
        requires
            self.wf(),
            width <= 64,
            offset + width <= 8 * self.bytes().len(),
        ensures
            r == field_value(self.bytes(), offset as int, width as nat),
    {
        proof {
            self.layout.lemma_valid();
        }
        read_bits(&self.data, offset, width)
    }

    /// Writes the low `width` bits of `value` to the `width` bits at bit
    /// `offset`.
    pub fn write(&mut self, offset: usize, width: usize, value: u64)
        requires
            old(self).wf(),
            width <= 64,
            offset + width <= 8 * old(self).bytes().len(),
        ensures
            final(self).wf(),
            final(self).layout() == old(self).layout(),
            writes(old(self).bytes(), final(self).bytes(), offset as int, width as nat, value),
    {
        proof {
            self.layout.lemma_valid();
        }
        write_bits(&mut self.data, offset, width, value);
    }

    /// Reads a field of the width that `T` names, at bit `offset`.
    pub fn get<T: Specifier>(&self, offset: usize) -> (r: u64)
        requires
            self.wf(),
            T::spec_bits() <= 64,
            offset + T::spec_bits() <= 8 * self.bytes().len(),
        ensures
            r == field_value(self.bytes(), offset as int, T::spec_bits()),
    {
        self.read(offset, T::bits())
    }

    /// Writes `value` to a field of the width that `T` names, at bit `offset`.
    pub fn set<T: Specifier>(&mut self, offset: usize, value: u64)
        requires
            old(self).wf(),
            T::spec_bits() <= 64,
            offset + T::spec_bits() <= 8 * old(self).bytes().len(),
        ensures
            final(self).wf(),
            final(self).layout() == old(self).layout(),
            writes(old(self).bytes(), final(self).bytes(), offset as int, T::spec_bits(), value),
    {
        self.write(offset, T::bits(), value);
    }

    /// Reads field `index`.
    pub fn get_at(&self, index: usize) -> (r: u64)
        requires
            self.wf(),
            index < self.schema().len(),
        ensures
            r == self.field(index as int),
    {
        proof {
            self.layout.lemma_valid();
            crate::layout::lemma_span_within(self.schema(), index as int);
        }
        self.read(self.layout.offset(index), self.layout.width(index))
    }

    /// Writes `value` to field `index`; only its low bits, as many as the
    /// field's width, are kept.
    pub fn set_at(&mut self, index: usize, value: u64)
        requires
            old(self).wf(),
            index < old(self).schema().len(),
        ensures
            final(self).wf(),
            final(self).layout() == old(self).layout(),
            writes(
                old(self).bytes(),
                final(self).bytes(),
                span_start(old(self).schema(), index as int),
                old(self).schema()[index as int].width as nat,
                value,
            ),
    {
        proof {
            self.layout.lemma_valid();
            crate::layout::lemma_span_within(self.schema(), index as int);
        }
        let offset = self.layout.offset(index);
        let width = self.layout.width(index);
        self.write(offset, width, value);
    }

    /// Reads the field named `name`, if the record has one.
    pub fn get_field(&self, name: &str) -> (r: Option<u64>)
        requires
            self.wf(),
        ensures
            match r {
                Some(v) => exists|i: int|
                    0 <= i < self.schema().len() && #[trigger] self.schema()[i].name@ == name@
                        && v == self.field(i),
                None => forall|i: int|
                    0 <= i < self.schema().len() ==> #[trigger] self.schema()[i].name@ != name@,
            },
    {
        match self.layout.index_of(name) {
            Some(i) => Some(self.get_at(i)),
            None => None,
        }
    }

    /// Writes `value` to the field named `name`, if the record has one, and
    /// tells whether it did.
    pub fn set_field(&mut self, name: &str, value: u64) -> (r: bool)
        requires
            old(self).wf(),
        ensures
            final(self).wf(),
            final(self).layout() == old(self).layout(),
            r ==> exists|i: int|
                0 <= i < old(self).schema().len() && #[trigger] old(self).schema()[i].name@
                    == name@ && writes(
                    old(self).bytes(),
                    final(self).bytes(),
                    span_start(old(self).schema(), i),
                    old(self).schema()[i].width as nat,
                    value,
                ),
            !r ==> final(self).bytes() == old(self).bytes() && forall|i: int|
                0 <= i < old(self).schema().len() ==> #[trigger] old(self).schema()[i].name@
                    != name@,
    {
        match self.layout.index_of(name) {
            Some(i) => {
                self.set_at(i, value);
                true
            },
            None => false,
        }
    }
}

impl KnownSize for PackedRecord {
    open spec fn sized(&self) -> bool {
        self.wf()
    }

    open spec fn size_bits(&self) -> nat {
        8 * self.bytes().len()
    }

    fn total_size(&self) -> (r: TotalSize) {
        TotalSize { bits: self.layout.total_bits() }
    }
}

impl TotalSizeIsMultipleOf8 for PackedRecord {
    proof fn lemma_multiple_of_8(&self) {
    }
}

/// A field of a record reads back what was written to it, modulo
/// `2^width`.
pub proof fn lemma_field_round_trip(before: PackedRecord, after: PackedRecord, index: int, value: u64)
    requires
        before.wf(),
        after.layout() == before.layout(),
        0 <= index < before.schema().len(),
        writes(
            before.bytes(),
            after.bytes(),
            span_start(before.schema(), index),
            before.schema()[index].width as nat,
            value,
        ),
    ensures
        after.field(index) == truncated(value, before.schema()[index].width as nat),
{
    let schema = before.schema();
    before.layout().lemma_valid();
    crate::layout::lemma_span_within(schema, index);
    assert(crate::width::legal_width(schema[index].width as int));
    lemma_round_trip(
        before.bytes(),
        after.bytes(),
        span_start(schema, index),
        schema[index].width as nat,
        value,
    );
}

/// Writing one field of a record leaves every other field's value unchanged.
pub proof fn lemma_fields_independent(
    before: PackedRecord,
    after: PackedRecord,
    written: int,
    other: int,
    value: u64,
)
    requires
        before.wf(),
        after.layout() == before.layout(),
        0 <= written < before.schema().len(),
        0 <= other < before.schema().len(),
        written != other,
        writes(
            before.bytes(),
            after.bytes(),
            span_start(before.schema(), written),
            before.schema()[written].width as nat,
            value,
        ),
    ensures
        after.field(other) == before.field(other),
{
    let schema = before.schema();
    before.layout().lemma_valid();
    crate::layout::lemma_span_within(schema, other);
    if written < other {
        crate::layout::lemma_spans_disjoint(schema, written, other);
    } else {
        crate::layout::lemma_spans_disjoint(schema, other, written);
    }
    lemma_non_interference(
        before.bytes(),
        after.bytes(),
        span_start(schema, written),
        schema[written].width as nat,
        value,
        span_start(schema, other),
        schema[other].width as nat,
    );
}

} // verus!
