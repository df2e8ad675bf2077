//! Derivation of block-state schemas from external field descriptions: field
//! types, integer widths, type identity of same-named enumerations, and the
//! number of values of each field.

use vstd::prelude::*;

use crate::error::ProtocolError;

verus! {

/// The smallest integer type that holds every value of an integer field.
#[derive(Debug, Clone, Copy, PartialEq, Eq, Structural)]
pub enum IntWidth {
    U8,
    I8,
    U16,
    I16,
    U32,
    I32,
    U64,
    I64,
    I128,
}

/// The values a state field declares.
#[derive(Debug, Clone, PartialEq, Eq)]
pub enum FieldValues {
    /// `false` and `true`.
    Bool,
    /// Integers, in declared order; not necessarily contiguous.
    Int(Vec<i128>),
    /// Labels, in declared order: a label's position is its value.
    Enum(Vec<String>),
}

/// One state field of a block as the external schema describes it.
#[derive(Debug, Clone, PartialEq, Eq)]
pub struct FieldDescriptor {
    pub name: String,
    pub values: FieldValues,
}

/// The type a field's values take.
#[derive(Debug, Clone, Copy, PartialEq, Eq, Structural)]
pub enum FieldType {
    Bool,
    Int(IntWidth),
    /// An enumeration shared by every block that declares a field of this name
    /// with the same labels.
    SharedEnum,
    /// An enumeration of its own block: another block declares a field of the
    /// same name with other labels.
    BlockQualifiedEnum,
}

/// A field of a derived block schema: its type and its number of values.
#[derive(Debug, Clone, Copy, PartialEq, Eq, Structural)]
pub struct DerivedField {
    pub ty: FieldType,
    pub radix: u32,
}

/// Smallest of `s` (0 for an empty sequence).
pub open spec fn seq_min(s: Seq<i128>) -> int
    decreases s.len(),
{
    if s.len() == 0 {
        0
    } else if s.len() == 1 {
        s[0] as int
    } else {
        let m = seq_min(s.drop_last());
        if (s.last() as int) < m {
            s.last() as int
        } else {
            m
        }
    }
}

/// Largest of `s` (0 for an empty sequence).
pub open spec fn seq_max(s: Seq<i128>) -> int
    decreases s.len(),
{
    if s.len() == 0 {
        0
    } else if s.len() == 1 {
        s[0] as int
    } else {
        let m = seq_max(s.drop_last());
        if (s.last() as int) > m {
            s.last() as int
        } else {
            m
        }
    }
}

/// The first integer type, in the order u8, i8, u16, i16, u32, i32, u64, i64,
/// whose range holds `[lo, hi]`; i128 where none does.
pub open spec fn width_for(lo: int, hi: int) -> IntWidth {
    if 0 <= lo && hi <= u8::MAX {
        IntWidth::U8
    } else if i8::MIN <= lo && hi <= i8::MAX {
        IntWidth::I8
    } else if 0 <= lo && hi <= u16::MAX {
        IntWidth::U16
    } else if i16::MIN <= lo && hi <= i16::MAX {
        IntWidth::I16
    } else if 0 <= lo && hi <= u32::MAX {
        IntWidth::U32
    } else if i32::MIN <= lo && hi <= i32::MAX {
        IntWidth::I32
    } else if 0 <= lo && hi <= u64::MAX {
        IntWidth::U64
    } else if i64::MIN <= lo && hi <= i64::MAX {
        IntWidth::I64
    } else {
        IntWidth::I128
    }
}

/// The smallest integer type holding every value of `values`, preferring the
/// unsigned type where no value is negative.
pub fn int_width(values: &Vec<i128>) -> (r: IntWidth)
    ensures
        r == width_for(seq_min(values@), seq_max(values@)),
{
    let mut lo: i128 = 0;
    let mut hi: i128 = 0;
    if values.len() > 0 {
        lo = values[0];
        hi = values[0];
    }
    let mut i: usize = if values.len() > 0 {
        1
    } else {
        0
    };
    proof {
        if values@.len() > 0 {
            assert(values@.take(1).drop_last() =~= Seq::<i128>::empty());
        }
    }
    while i < values.len()
        invariant
            values@.len() == 0 ==> i == 0 && lo == 0 && hi == 0,
            values@.len() > 0 ==> 1 <= i,
            i <= values@.len(),
            lo == seq_min(values@.take(i as int)),
            hi == seq_max(values@.take(i as int)),
        decreases values@.len() - i,
    {
        proof {
            let t = values@.take(i + 1);
            assert(t.drop_last() =~= values@.take(i as int));
            assert(t.last() == values@[i as int]);
        }
        let v = values[i];
        if v < lo {
            lo = v;
        }
        if v > hi {
            hi = v;
        }
        i = i + 1;
    }
    proof {
        assert(values@.take(values@.len() as int) =~= values@);
        if values@.len() == 0 {
            assert(values@.take(0) =~= Seq::<i128>::empty());
        }
    }
    if lo >= 0 && hi <= u8::MAX as i128 {
        IntWidth::U8
    } else if lo >= i8::MIN as i128 && hi <= i8::MAX as i128 {
        IntWidth::I8
    } else if lo >= 0 && hi <= u16::MAX as i128 {
        IntWidth::U16
    } else if lo >= i16::MIN as i128 && hi <= i16::MAX as i128 {
        IntWidth::I16
    } else if lo >= 0 && hi <= u32::MAX as i128 {
        IntWidth::U32
    } else if lo >= i32::MIN as i128 && hi <= i32::MAX as i128 {
        IntWidth::I32
    } else if lo >= 0 && hi <= u64::MAX as i128 {
        IntWidth::U64
    } else if lo >= i64::MIN as i128 && hi <= i64::MAX as i128 {
        IntWidth::I64
    } else {
        IntWidth::I128
    }
}

/// The labels of an enumeration field as character sequences.
pub open spec fn labels_view(labels: Seq<String>) -> Seq<Seq<char>> {
    labels.map_values(|s: String| s@)
}

/// The labels of field `f` where it is an enumeration.
pub open spec fn enum_labels(f: FieldDescriptor) -> Option<Seq<Seq<char>>> {
    match f.values {
        FieldValues::Enum(labels) => Some(labels_view(labels@)),
        _ => None,
    }
}

/// Some enumeration field of some block has the name `name` and labels other
/// than `labels`.
pub open spec fn has_competitor(
    blocks: Seq<Seq<FieldDescriptor>>,
    name: Seq<char>,
    labels: Seq<Seq<char>>,
) -> bool {
    exists|b: int, i: int|
        0 <= b < blocks.len() && 0 <= i < blocks[b].len() && #[trigger] blocks[b][i].name@ == name
            && (enum_labels(blocks[b][i]) matches Some(l) && l != labels)
}

/// Whether two label lists are equal.
fn same_labels(a: &Vec<String>, b: &Vec<String>) -> (r: bool)
    ensures
        r == (labels_view(a@) == labels_view(b@)),
{
    if a.len() != b.len() {
        assert(labels_view(a@).len() != labels_view(b@).len());
        return false;
    }
    let mut i: usize = 0;
    while i < a.len()
        invariant
            a@.len() == b@.len(),
            i <= a@.len(),
            forall|j: int| 0 <= j < i ==> a@[j]@ == b@[j]@,
        decreases a@.len() - i,
    {
        if a[i] != b[i] {
            assert(labels_view(a@)[i as int] != labels_view(b@)[i as int]);
            return false;
        }
        i = i + 1;
    }
    assert(labels_view(a@) =~= labels_view(b@));
    true
}

/// Whether another enumeration field of the same name, anywhere in `blocks`,
/// has other labels than `labels`: then the field needs a type of its own block.
pub fn has_competing_definition(
    blocks: &Vec<Vec<FieldDescriptor>>,
    name: &String,
    labels: &Vec<String>,
) -> (r: bool)
    ensures
        r == has_competitor(blocks@.map_values(|v: Vec<FieldDescriptor>| v@), name@, labels_view(labels@)),
{
    let ghost all = blocks@.map_values(|v: Vec<FieldDescriptor>| v@);
    let mut b: usize = 0;
    while b < blocks.len()
        invariant
            all == blocks@.map_values(|v: Vec<FieldDescriptor>| v@),
            b <= blocks@.len(),
            forall|bb: int, i: int|
                0 <= bb < b && 0 <= i < all[bb].len() && all[bb][i].name@ == name@ ==> !(
                enum_labels(all[bb][i]) matches Some(l) && l != labels_view(labels@)),
        decreases blocks@.len() - b,
    {
        let fields = &blocks[b];
        let mut i: usize = 0;
        while i < fields.len()
            invariant
                all == blocks@.map_values(|v: Vec<FieldDescriptor>| v@),
                b < blocks@.len(),
                fields@ == all[b as int],
                i <= fields@.len(),
                forall|bb: int, j: int|
                    0 <= bb < b && 0 <= j < all[bb].len() && all[bb][j].name@ == name@ ==> !(
                    enum_labels(all[bb][j]) matches Some(l) && l != labels_view(labels@)),
                forall|j: int|
                    0 <= j < i && fields@[j].name@ == name@ ==> !(enum_labels(fields@[j]) matches Some(
                        l,
                    ) && l != labels_view(labels@)),
            decreases fields@.len() - i,
        {
            let f = &fields[i];
            if f.name == *name {
                match &f.values {
                    FieldValues::Enum(other) => {
                        if !same_labels(other, labels) {
                            assert(all[b as int][i as int].name@ == name@);
                            return true;
                        }
                    },
                    _ => {},
                }
            }
            i = i + 1;
        }
        b = b + 1;
    }
    false
}

/// Type and number of values of field `f` of a block, given whether another
/// enumeration of the same name has other labels; `None` where the field has
/// no value or more values than a `u32` counts.
pub open spec fn derive_field_spec(f: FieldDescriptor, competing: bool) -> Option<DerivedField> {
    match f.values {
        FieldValues::Bool => Some(DerivedField { ty: FieldType::Bool, radix: 2 }),
        FieldValues::Int(vals) => if 1 <= vals@.len() <= u32::MAX {
            Some(
                DerivedField {
                    ty: FieldType::Int(width_for(seq_min(vals@), seq_max(vals@))),
                    radix: vals@.len() as u32,
                },
            )
        } else {
            None
        },
        FieldValues::Enum(labels) => if 1 <= labels@.len() <= u32::MAX {
            Some(
                DerivedField {
                    ty: if competing {
                        FieldType::BlockQualifiedEnum
                    } else {
                        FieldType::SharedEnum
                    },
                    radix: labels@.len() as u32,
                },
            )
        } else {
            None
        },
    }
}

/// Derives the schema of block `block` of `blocks`: each field's type and
/// number of values, in declared order.
///
/// Fails with `StateIdOutOfRange` where there is no such block, and with
/// `InvalidFieldValue` where a field declares no value or more than a `u32`
/// counts.
pub fn derive_block_schema(blocks: &Vec<Vec<FieldDescriptor>>, block: usize) -> (r: Result<
    Vec<DerivedField>,
    ProtocolError,
>)
    ensures
        block >= blocks@.len() ==> r == Err::<Vec<DerivedField>, ProtocolError>(
            ProtocolError::StateIdOutOfRange,
        ),
        block < blocks@.len() ==> {
            let all = blocks@.map_values(|v: Vec<FieldDescriptor>| v@);
            let fs = all[block as int];
            if exists|i: int|
                0 <= i < fs.len() && (#[trigger] derive_field_spec(fs[i], false)) is None {
                r == Err::<Vec<DerivedField>, ProtocolError>(ProtocolError::InvalidFieldValue)
            } else {
                r matches Ok(d) && d@.len() == fs.len() && forall|i: int|
                    0 <= i < fs.len() ==> Some(#[trigger] d@[i]) == derive_field_spec(
                        fs[i],
                        enum_labels(fs[i]) matches Some(l) && has_competitor(all, fs[i].name@, l),
                    )
            }
        },
{
    if block >= blocks.len() {
        return Err(ProtocolError::StateIdOutOfRange);
    }
    let ghost all = blocks@.map_values(|v: Vec<FieldDescriptor>| v@);
    let fields = &blocks[block];
    let ghost fs = all[block as int];
    assert(fields@ == fs);
    let mut out: Vec<DerivedField> = Vec::new();
    let mut i: usize = 0;
    while i < fields.len()
        invariant
            all == blocks@.map_values(|v: Vec<FieldDescriptor>| v@),
            block < blocks@.len(),
            fs == all[block as int],
            fields@ == fs,
            i <= fs.len(),
            out@.len() == i,
            forall|j: int| 0 <= j < i ==> (#[trigger] derive_field_spec(fs[j], false)) is Some,
            forall|j: int|
                0 <= j < i ==> Some(#[trigger] out@[j]) == derive_field_spec(
                    fs[j],
                    enum_labels(fs[j]) matches Some(l) && has_competitor(all, fs[j].name@, l),
                ),
        decreases fs.len() - i,
    {
        let f = &fields[i];
        let d = match &f.values {
            FieldValues::Bool => DerivedField { ty: FieldType::Bool, radix: 2 },
            FieldValues::Int(vals) => {
                if vals.len() == 0 || vals.len() as u64 > u32::MAX as u64 {
                    assert(derive_field_spec(fs[i as int], false) is None);
                    return Err(ProtocolError::InvalidFieldValue);
                }
                DerivedField { ty: FieldType::Int(int_width(vals)), radix: vals.len() as u32 }
            },
            FieldValues::Enum(labels) => {
                if labels.len() == 0 || labels.len() as u64 > u32::MAX as u64 {
                    assert(derive_field_spec(fs[i as int], false) is None);
                    return Err(ProtocolError::InvalidFieldValue);
                }
                let competing = has_competing_definition(blocks, &f.name, labels);
                let ty = if competing {
                    FieldType::BlockQualifiedEnum
                } else {
                    FieldType::SharedEnum
                };
                DerivedField { ty, radix: labels.len() as u32 }
            },
        };
        out.push(d);
        i = i + 1;
    }
    proof {
        assert forall|i: int| 0 <= i < fs.len() implies (#[trigger] derive_field_spec(
            fs[i],
            false,
        )) is Some by {}
    }
    Ok(out)
}

/// The number of values of each field of a derived schema, in declared order:
/// what the state registry takes for the block.
pub fn schema_radices(schema: &Vec<DerivedField>) -> (r: Vec<u32>)
    ensures
        r@.len() == schema@.len(),
        forall|i: int| 0 <= i < schema@.len() ==> r@[i] == schema@[i].radix,
{
    let mut out: Vec<u32> = Vec::new();
    let mut i: usize = 0;
    while i < schema.len()
        invariant
            i <= schema@.len(),
            out@.len() == i,
            forall|j: int| 0 <= j < i ==> out@[j] == schema@[j].radix,
        decreases schema@.len() - i,
    {
        out.push(schema[i].radix);
        i = i + 1;
    }
    out
}

/// Position of `label` among the labels of an enumeration field: the first
/// equal one, or `None` where no label is equal.
pub fn enum_value_index(labels: &Vec<String>, label: &String) -> (r: Option<u32>)
    requires
        labels@.len() <= u32::MAX,
    ensures
        match r {
            Some(k) => k < labels@.len() && labels@[k as int]@ == label@ && forall|j: int|
                0 <= j < k ==> labels@[j]@ != label@,
            None => forall|j: int| 0 <= j < labels@.len() ==> labels@[j]@ != label@,
        },
{
    let mut i: usize = 0;
    while i < labels.len()
        invariant
            i <= labels@.len(),
            labels@.len() <= u32::MAX,
            forall|j: int| 0 <= j < i ==> labels@[j]@ != label@,
        decreases labels@.len() - i,
    {
        if labels[i] == *label {
            return Some(i as u32);
        }
        i = i + 1;
    }
    None
}

/// Position of the integer `v` among the values of an integer field: the
/// first equal one, or `None`. A run of consecutive values is looked up by
/// its offset from the first value, any other list by a scan.
pub fn int_value_index(values: &Vec<i128>, v: i128) -> (r: Option<u32>)
    requires
        values@.len() <= u32::MAX,
    ensures
        match r {
            Some(k) => k < values@.len() && values@[k as int] == v && forall|j: int|
                0 <= j < k ==> values@[j] != v,
            None => forall|j: int| 0 <= j < values@.len() ==> values@[j] != v,
        },
{
    if values.len() == 0 {
        return None;
    }
    let first = values[0];
    let mut contiguous = true;
    let mut i: usize = 0;
    while i < values.len()
        invariant
            i <= values@.len(),
            values@.len() <= u32::MAX,
            first == values@[0],
            contiguous ==> forall|k: int| 0 <= k < i ==> #[trigger] values@[k] == first + k,
        decreases values@.len() - i,
    {
        if first > i128::MAX - (i as i128) || values[i] != first + i as i128 {
            contiguous = false;
        }
        i = i + 1;
    }
    if contiguous {
        let last = values[values.len() - 1];
        assert(last == first + (values@.len() - 1));
        if v < first || v > last {
            proof {
                assert forall|j: int| 0 <= j < values@.len() implies values@[j] != v by {
                    assert(values@[j] == first + j);
                }
            }
            return None;
        }
        let k = (v - first) as u32;
        assert(values@[k as int] == v);
        return Some(k);
    }
    let mut j: usize = 0;
    while j < values.len()
        invariant
            j <= values@.len(),
            values@.len() <= u32::MAX,
            forall|k: int| 0 <= k < j ==> values@[k] != v,
        decreases values@.len() - j,
    {
        if values[j] == v {
            return Some(j as u32);
        }
        j = j + 1;
    }
    None
}

} // verus!
