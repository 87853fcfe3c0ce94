//! Schemas and their layouts: where each field's bits start, and whether a
//! schema may become a record type at all.

use crate::width::{is_legal_width, legal_width, MAX_WIDTH};
use vstd::prelude::*;

verus! {

/// A declared field: its name and its width in bits.
pub struct FieldSpec {
    pub name: String,
    pub width: usize,
}

impl FieldSpec {
    /// A field named `name` of `width` bits.
    pub fn new(name: &str, width: usize) -> (r: FieldSpec)
        ensures
            r.name@ == name@,
            r.width == width,
    {
        FieldSpec { name: name.to_owned(), width }
    }
}

/// The bit offset of field `i`: the sum of the widths of the fields before it.
pub open spec fn span_start(schema: Seq<FieldSpec>, i: int) -> int
    decreases i,
{
    if i <= 0 {
        0
    } else {
        span_start(schema, i - 1) + schema[i - 1].width
    }
}

/// The number of bits of all fields together.
pub open spec fn total_width(schema: Seq<FieldSpec>) -> int {
    span_start(schema, schema.len() as int)
}

/// Every field has a width that a field may have.
pub open spec fn widths_legal(schema: Seq<FieldSpec>) -> bool {
    forall|i: int| 0 <= i < schema.len() ==> legal_width(#[trigger] schema[i].width as int)
}

/// Field `j` has the name of a field before it.
pub open spec fn repeats_earlier(schema: Seq<FieldSpec>, j: int) -> bool {
    exists|i: int| 0 <= i < j && schema[i].name@ == #[trigger] schema[j].name@
}

/// No two fields share a name.
pub open spec fn names_distinct(schema: Seq<FieldSpec>) -> bool {
    forall|i: int, j: int|
        0 <= i < j < schema.len() ==> #[trigger] schema[i].name@ != #[trigger] schema[j].name@
}

/// A schema that may become a record type: legal widths, distinct names, and
/// a whole number of bytes in all.
pub open spec fn valid_schema(schema: Seq<FieldSpec>) -> bool {
    &&& widths_legal(schema)
    &&& names_distinct(schema)
    &&& total_width(schema) % 8 == 0
}

/// Why a schema cannot become a record type.
#[derive(Debug, PartialEq, Eq, Structural)]
pub enum SchemaError {
    /// Field `index`, the first with such a width, has a width outside 1 to 64.
    InvalidWidth { index: usize, width: usize },
    /// Field `index`, the first to do so, repeats the name of an earlier field.
    DuplicateField { index: usize },
    /// The fields take `total_bits` bits together, which is not a whole number
    /// of bytes.
    Misaligned { total_bits: usize },
}

/// A number of bits, as a record type's total width.
#[derive(Debug, Clone, Copy, PartialEq, Eq, Structural)]
pub struct TotalSize {
    pub bits: usize,
}

impl TotalSize {
    /// Whether the bits fill a whole number of bytes.
    pub fn is_multiple_of_8(&self) -> (r: bool)
        ensures
            r == (self.bits % 8 == 0),
    {
        self.bits % 8 == 0
    }

    /// The number of whole bytes the bits fill.
    pub fn byte_len(&self) -> (r: usize)
        ensures
            r == self.bits / 8,
    {
        self.bits / 8
    }
}

/// A value whose size in bits is fixed once it is well formed.
pub trait KnownSize {
    /// Whether the size is fixed.
    spec fn sized(&self) -> bool;

    /// The size in bits.
    spec fn size_bits(&self) -> nat;

    /// The size in bits.
    fn total_size(&self) -> (r: TotalSize)
        requires
            self.sized(),
        ensures
            r.bits == self.size_bits(),
    ;
}

/// A value whose fixed size is a whole number of bytes.
pub trait TotalSizeIsMultipleOf8: KnownSize {
    /// The size in bits is a multiple of 8.
    proof fn lemma_multiple_of_8(&self)
        requires
            self.sized(),
        ensures
            self.size_bits() % 8 == 0,
    ;
}

/// A field's start grows with its position.
pub proof fn lemma_span_start_monotone(schema: Seq<FieldSpec>, i: int, j: int)
    requires
        0 <= i <= j <= schema.len(),
    ensures
        span_start(schema, i) <= span_start(schema, j),
    decreases j - i,
{
    if i < j {
        lemma_span_start_monotone(schema, i, j - 1);
    }
}

/// The spans of two different fields do not overlap, and each lies within
/// the total width.
pub proof fn lemma_spans_disjoint(schema: Seq<FieldSpec>, i: int, j: int)
    requires
        0 <= i < j < schema.len(),
    ensures
        span_start(schema, i) + schema[i].width <= span_start(schema, j),
        span_start(schema, j) + schema[j].width <= total_width(schema),
{
    lemma_span_start_monotone(schema, i + 1, j);
    lemma_span_start_monotone(schema, j + 1, schema.len() as int);
}

/// A field's span lies within the total width.
pub proof fn lemma_span_within(schema: Seq<FieldSpec>, i: int)
    requires
        0 <= i < schema.len(),
    ensures
        0 <= span_start(schema, i),
        span_start(schema, i) + schema[i].width <= total_width(schema),
{
    lemma_span_start_monotone(schema, 0, i);
    lemma_span_start_monotone(schema, i + 1, schema.len() as int);
}

proof fn lemma_span_start_bound(schema: Seq<FieldSpec>, i: int)
    requires
        0 <= i <= schema.len(),
        widths_legal(schema),
    ensures
        span_start(schema, i) <= MAX_WIDTH * i,
    decreases i,
{
    if i > 0 {
        lemma_span_start_bound(schema, i - 1);
    }
}

/// A valid schema with each field's bit offset worked out.
pub struct Layout {
    fields: Vec<FieldSpec>,
    offsets: Vec<usize>,
    total_bits: usize,
}

impl Layout {
    /// The fields, in packing order.
    pub closed spec fn schema(&self) -> Seq<FieldSpec> {
        self.fields@
    }

    /// The offsets and the total agree with the schema, which is valid.
    pub closed spec fn wf(&self) -> bool {
        &&& valid_schema(self.fields@)
        &&& self.offsets@.len() == self.fields@.len()
        &&& forall|i: int|
            0 <= i < self.offsets@.len() ==> #[trigger] self.offsets@[i] == span_start(
                self.fields@,
                i,
            )
        &&& self.total_bits == total_width(self.fields@)
    }

    /// Checks a schema and works out its layout. The checks come in this
    /// order: every width lies in 1 to 64, no name repeats, and the widths add
    /// up to a whole number of bytes. The first that fails gives the error.
    pub fn resolve(schema: Vec<FieldSpec>) -> (r: Result<Layout, SchemaError>)
        requires
            schema@.len() * MAX_WIDTH <= usize::MAX,
        ensures
            match r {
                Ok(layout) => layout.wf() && valid_schema(schema@) && layout.schema() == schema@,
                Err(SchemaError::InvalidWidth { index, width }) => {
                    &&& index < schema@.len()
                    &&& width == schema@[index as int].width
                    &&& !legal_width(width as int)
                    &&& forall|k: int| 0 <= k < index ==> legal_width(#[trigger] schema@[k].width as int)
                },
                Err(SchemaError::DuplicateField { index }) => {
                    &&& widths_legal(schema@)
                    &&& index < schema@.len()
                    &&& repeats_earlier(schema@, index as int)
                    &&& forall|k: int| 0 <= k < index ==> !repeats_earlier(schema@, k)
                },
                Err(SchemaError::Misaligned { total_bits }) => {
                    &&& widths_legal(schema@)
                    &&& names_distinct(schema@)
                    &&& total_bits == total_width(schema@)
                    &&& total_bits % 8 != 0
                },
            },
    {
        let n = schema.len();
        let mut i: usize = 0;
        while i < n
            invariant
                n == schema@.len(),
                i <= n,
                forall|k: int| 0 <= k < i ==> legal_width(#[trigger] schema@[k].width as int),
            decreases n - i,
        {
            if !is_legal_width(schema[i].width) {
                return Err(SchemaError::InvalidWidth { index: i, width: schema[i].width });
            }
            i = i + 1;
        }
        let mut j: usize = 0;
        while j < n
            invariant
                n == schema@.len(),
                j <= n,
                widths_legal(schema@),
                forall|a: int, b: int|
                    0 <= a < b < j ==> #[trigger] schema@[a].name@ != #[trigger] schema@[b].name@,
            decreases n - j,
        {
            let mut k: usize = 0;
            while k < j
                invariant
                    n == schema@.len(),
                    k <= j < n,
                    widths_legal(schema@),
                    forall|a: int, b: int|
                        0 <= a < b < j ==> #[trigger] schema@[a].name@ != #[trigger] schema@[b].name@,
                    forall|a: int| 0 <= a < k ==> #[trigger] schema@[a].name@ != schema@[j as int].name@,
                decreases j - k,
            {
                if schema[k].name == schema[j].name {
                    proof {
                        assert(schema@[k as int].name@ == schema@[j as int].name@);
                        assert(repeats_earlier(schema@, j as int));
                        assert forall|c: int| 0 <= c < j implies !repeats_earlier(schema@, c) by {
                            if repeats_earlier(schema@, c) {
                                let a = choose|a: int|
                                    0 <= a < c && schema@[a].name@ == #[trigger] schema@[c].name@;
                                assert(schema@[a].name@ != schema@[c].name@);
                            }
                        }
                    }
                    return Err(SchemaError::DuplicateField { index: j });
                }
                k = k + 1;
            }
            j = j + 1;
        }
        let mut offsets: Vec<usize> = Vec::new();
        let mut total: usize = 0;
        let mut i: usize = 0;
        while i < n
            invariant
                n == schema@.len(),
                n * MAX_WIDTH <= usize::MAX,
                i <= n,
                widths_legal(schema@),
                offsets@.len() == i,
                forall|k: int| 0 <= k < i ==> #[trigger] offsets@[k] == span_start(schema@, k),
                total == span_start(schema@, i as int),
            decreases n - i,
        {
            proof {
                lemma_span_start_bound(schema@, i as int);
                assert(legal_width(schema@[i as int].width as int));
                assert(MAX_WIDTH * i + MAX_WIDTH <= n * MAX_WIDTH) by (nonlinear_arith)
                    requires
                        i < n,
                ;
            }
            offsets.push(total);
            total = total + schema[i].width;
            i = i + 1;
        }
        if !(TotalSize { bits: total }).is_multiple_of_8() {
            return Err(SchemaError::Misaligned { total_bits: total });
        }
        let layout = Layout { fields: schema, offsets, total_bits: total };
        Ok(layout)
    }

    /// The number of fields.
    pub fn len(&self) -> (r: usize)
        ensures
            r == self.schema().len(),
    {
        self.fields.len()
    }

    /// The number of bits of all fields together.
    pub fn total_bits(&self) -> (r: usize)
        requires
            self.wf(),
        ensures
            r == total_width(self.schema()),
    {
        self.total_bits
    }

    /// The bit offset of field `index`.
    pub fn offset(&self, index: usize) -> (r: usize)
        requires
            self.wf(),
            index < self.schema().len(),
        ensures
            r == span_start(self.schema(), index as int),
    {
        self.offsets[index]
    }

    /// The width of field `index`.
    pub fn width(&self, index: usize) -> (r: usize)
        requires
            index < self.schema().len(),
        ensures
            r == self.schema()[index as int].width,
    {
        self.fields[index].width
    }

    /// The position of the field named `name`, if there is one.
    pub fn index_of(&self, name: &str) -> (r: Option<usize>)
        ensures
            match r {
                Some(i) => i < self.schema().len() && self.schema()[i as int].name@ == name@,
                None => forall|i: int|
                    0 <= i < self.schema().len() ==> #[trigger] self.schema()[i].name@ != name@,
            },
    {
        let wanted = name.to_owned();
        let mut i: usize = 0;
        while i < self.fields.len()
            invariant
                wanted@ == name@,
                i <= self.fields@.len(),
                forall|k: int| 0 <= k < i ==> #[trigger] self.fields@[k].name@ != name@,
            decreases self.fields@.len() - i,
        {
            if self.fields[i].name == wanted {
                return Some(i);
            }
            i = i + 1;
        }
        None
    }

    /// Every layout comes from a valid schema.
    pub proof fn lemma_valid(&self)
        requires
            self.wf(),
        ensures
            valid_schema(self.schema()),
            0 <= total_width(self.schema()) <= usize::MAX,
    {
        lemma_span_start_monotone(self.schema(), 0, self.schema().len() as int);
    }
}

impl KnownSize for Layout {
    open spec fn sized(&self) -> bool {
        self.wf()
    }

    open spec fn size_bits(&self) -> nat {
        total_width(self.schema()) as nat
    }

    fn total_size(&self) -> (r: TotalSize) {
        TotalSize { bits: self.total_bits() }
    }
}

impl TotalSizeIsMultipleOf8 for Layout {
    proof fn lemma_multiple_of_8(&self) {
        self.lemma_valid();
    }
}

} // verus!
