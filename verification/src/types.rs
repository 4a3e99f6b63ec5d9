//! The types of columns: how they are made up, and which of them arrow can fill with
//! nulls.

use crate::schema::{fields, FieldView};
use datafusion::arrow::datatypes::{DataType, FieldRef, Schema, TimeUnit, UnionMode};
use vstd::prelude::*;

verus! {

/// The type of a column. Opaque but for [`type_tree`].
#[verifier::external_type_specification]
#[verifier::external_body]
pub struct ExDataType(DataType);

/// What the library tells apart among types that are not made of others.
#[derive(Debug, Clone, Copy, PartialEq, Eq, Structural)]
pub enum Leaf {
    /// Nulls alone.
    Null,
    /// Decimals of any width.
    Decimal,
    /// Texts or bytes that are found by offsets of 32 bits.
    Offsets,
    /// Texts or bytes that are found by views.
    Views,
    /// Bytes of a fixed number.
    FixedBytes(i32),
    /// Times of day in a unit that their width does not go with.
    OddTime,
    /// All others, and types that are made of others.
    Other,
}

/// How a type is made of others.
#[derive(Debug, Clone, Copy, PartialEq, Eq, Structural)]
pub enum Nesting {
    /// Not at all.
    Flat,
    /// Lists that are found by offsets.
    List,
    /// Lists that are found by views.
    ListView,
    /// Lists of a fixed length.
    FixedList(i32),
    /// Lists of keys and values.
    Pairs,
    /// Several values side by side.
    Struct,
    /// One of several values, with room for each of them.
    SparseUnion,
    /// One of several values, with room for it alone.
    DenseUnion,
    /// Keys into a list of values.
    Dictionary,
    /// Runs of equal values.
    Runs,
}

/// A type, as contracts see it. `width` is the number of bytes of a value, where
/// all values have the same; `key` tells whether a dictionary can have such keys,
/// and `run_end` whether runs can end at such numbers.
pub struct TypeTree {
    pub leaf: Leaf,
    pub nesting: Nesting,
    pub width: Option<usize>,
    pub key: bool,
    pub run_end: bool,
    pub parts: Seq<TypeTree>,
}

/// How a type is made up.
pub uninterp spec fn type_tree(data_type: DataType) -> TypeTree;

/// How types are made up.
pub open spec fn type_trees(list: Seq<DataType>) -> Seq<TypeTree> {
    list.map_values(|t: DataType| type_tree(t))
}

/// `DataType`, of which the variants that are not made of others are told apart.
#[verifier::external_body]
pub(crate) fn leaf_of(data_type: &DataType) -> (leaf: Leaf)
    ensures
        leaf == type_tree(*data_type).leaf,
{
    match data_type {
        DataType::Null => Leaf::Null,
        DataType::Decimal32(..) | DataType::Decimal64(..) => Leaf::Decimal,
        DataType::Decimal128(..) | DataType::Decimal256(..) => Leaf::Decimal,
        DataType::Utf8 | DataType::Binary => Leaf::Offsets,
        DataType::Utf8View | DataType::BinaryView => Leaf::Views,
        DataType::FixedSizeBinary(size) => Leaf::FixedBytes(*size),
        DataType::Time32(TimeUnit::Microsecond | TimeUnit::Nanosecond) => Leaf::OddTime,
        DataType::Time64(TimeUnit::Second | TimeUnit::Millisecond) => Leaf::OddTime,
        _ => Leaf::Other,
    }
}

/// `DataType`, of which the variants that are made of others are told apart.
#[verifier::external_body]
pub(crate) fn nesting_of(data_type: &DataType) -> (nesting: Nesting)
    ensures
        nesting == type_tree(*data_type).nesting,
{
    match data_type {
        DataType::List(_) | DataType::LargeList(_) => Nesting::List,
        DataType::ListView(_) | DataType::LargeListView(_) => Nesting::ListView,
        DataType::FixedSizeList(_, size) => Nesting::FixedList(*size),
        DataType::Map(..) => Nesting::Pairs,
        DataType::Struct(_) => Nesting::Struct,
        DataType::Union(_, UnionMode::Sparse) => Nesting::SparseUnion,
        DataType::Union(_, UnionMode::Dense) => Nesting::DenseUnion,
        DataType::Dictionary(..) => Nesting::Dictionary,
        DataType::RunEndEncoded(..) => Nesting::Runs,
        _ => Nesting::Flat,
    }
}

/// `DataType`, of which the types that it is made of are copied: keys before values,
/// and run ends before values.
#[verifier::external_body]
pub(crate) fn parts_of(data_type: &DataType) -> (parts: Vec<DataType>)
    ensures
        type_trees(parts@) == type_tree(*data_type).parts,
        parts@.len() == match type_tree(*data_type).nesting {
            Nesting::Flat => 0,
            Nesting::List | Nesting::ListView | Nesting::FixedList(_) | Nesting::Pairs => 1,
            Nesting::Dictionary | Nesting::Runs => 2,
            _ => parts@.len(),
        },
{
    let copy = |field: &FieldRef| field.data_type().clone();
    match data_type {
        DataType::List(item) | DataType::LargeList(item) | DataType::ListView(item)
        | DataType::LargeListView(item) | DataType::FixedSizeList(item, _)
        | DataType::Map(item, _) => vec![copy(item)],
        DataType::Struct(items) => items.iter().map(copy).collect(),
        DataType::Union(items, _) => items.iter().map(|item| copy(item.1)).collect(),
        DataType::Dictionary(key, value) => vec![*key.clone(), *value.clone()],
        DataType::RunEndEncoded(end, value) => vec![copy(end), copy(value)],
        _ => vec![],
    }
}

/// `DataType::primitive_width`: the bytes of a value, if all have the same number.
pub assume_specification[ DataType::primitive_width ](data_type: &DataType) -> (width: Option<usize>)
    ensures
        width == type_tree(*data_type).width,
;

/// `DataType::is_dictionary_key_type`: whether a dictionary can have such keys.
pub assume_specification[ DataType::is_dictionary_key_type ](data_type: &DataType) -> (key: bool)
    ensures
        key == type_tree(*data_type).key,
;

/// `DataType::is_run_ends_type`: whether runs can end at such numbers.
pub assume_specification[ DataType::is_run_ends_type ](data_type: &DataType) -> (run_end: bool)
    ensures
        run_end == type_tree(*data_type).run_end,
;

/// A type is made of others; one of a dictionary or of runs counts as that of its
/// values.
pub open spec fn nested(tree: TypeTree) -> bool
    decreases tree,
{
    match tree.nesting {
        Nesting::Flat => false,
        Nesting::Dictionary | Nesting::Runs => tree.parts.len() == 2 && nested(tree.parts[1]),
        _ => true,
    }
}

/// `DataType::is_nested`: whether a type is made of others. One of a dictionary or of
/// runs counts as that of its values.
pub assume_specification[ DataType::is_nested ](data_type: &DataType) -> (is: bool)
    ensures
        is == nested(type_tree(*data_type)),
;

/// `Schema::fields`, of which the types are copied.
#[verifier::external_body]
pub(crate) fn field_types(schema: &Schema) -> (list: Vec<DataType>)
    ensures
        type_trees(list@) == trees_of(fields(*schema)),
{
    schema.fields().iter().map(|field| field.data_type().clone()).collect()
}

/// How the types of fields are made up.
pub open spec fn trees_of(list: Seq<FieldView>) -> Seq<TypeTree> {
    list.map_values(|f: FieldView| f.tree)
}

/// Values of any width can be laid out, so many of them.
pub open spec fn can_lay_out(len: nat) -> bool {
    64 * len + 64 <= isize::MAX
}

/// The last run can end at a number, in the width of a run end.
pub open spec fn run_fits(width: Option<usize>, len: nat) -> bool {
    match width {
        Some(2) => len <= i16::MAX,
        Some(4) => len <= i32::MAX,
        _ => len <= i64::MAX,
    }
}

/// Arrow makes a column of so many nulls of a type.
pub open spec fn fillable(tree: TypeTree, len: nat) -> bool
    decreases tree,
{
    &&& can_lay_out(len)
    &&& match tree.nesting {
        Nesting::Flat => match tree.leaf {
            Leaf::OddTime => false,
            Leaf::FixedBytes(size) => size >= 0 && size * len <= i32::MAX,
            _ => true,
        },
        Nesting::List | Nesting::ListView => tree.parts.len() == 1 && fillable(tree.parts[0], 0),
        Nesting::FixedList(size) => tree.parts.len() == 1 && if len == 0 {
            fillable(tree.parts[0], 0)
        } else {
            size >= 0 && fillable(tree.parts[0], (size * len) as nat)
        },
        Nesting::Pairs => {
            &&& tree.parts.len() == 1
            &&& tree.parts[0].nesting == Nesting::Struct
            &&& tree.parts[0].parts.len() == 2
            &&& fillable(tree.parts[0], 0)
        },
        Nesting::Struct => forall|i: int|
            0 <= i < tree.parts.len() ==> fillable(#[trigger] tree.parts[i], len),
        Nesting::SparseUnion => {
            &&& tree.parts.len() > 0
            &&& forall|i: int|
                0 <= i < tree.parts.len() ==> fillable(#[trigger] tree.parts[i], len)
        },
        Nesting::DenseUnion => {
            &&& tree.parts.len() > 0
            &&& len <= i32::MAX
            &&& forall|i: int|
                0 <= i < tree.parts.len() ==> fillable(
                    #[trigger] tree.parts[i],
                    if i == 0 {
                        len
                    } else {
                        0
                    },
                )
        },
        Nesting::Dictionary => {
            &&& tree.parts.len() == 2
            &&& tree.parts[0].key
            &&& fillable(tree.parts[1], 0)
        },
        Nesting::Runs => {
            &&& tree.parts.len() == 2
            &&& tree.parts[0].run_end
            &&& run_fits(tree.parts[0].width, len)
            &&& fillable(tree.parts[1], 1)
        },
    }
}

/// Whether all of some types can be filled with so many nulls.
fn can_fill_all(list: &Vec<DataType>, from: usize, len: usize, Ghost(whole): Ghost<TypeTree>) -> (can:
    bool)
    requires
        type_trees(list@) == whole.parts,
        from <= list@.len(),
    ensures
        can <==> forall|i: int|
            from <= i < whole.parts.len() ==> fillable(#[trigger] whole.parts[i], len as nat),
    decreases whole, 0nat,
{
    for k in from..list.len()
        invariant
            type_trees(list@) == whole.parts,
            forall|i: int|
                from <= i < k ==> fillable(#[trigger] whole.parts[i], len as nat),
    {
        proof {
            assert(type_trees(list@)[k as int] == type_tree(list@[k as int]));
            assert(whole.parts[k as int] == type_tree(list@[k as int]));
        }
        if !can_fill(&list[k], len) {
            return false;
        }
    }
    true
}

/// Whether arrow makes a column of so many nulls of a type.
pub fn can_fill(data_type: &DataType, len: usize) -> (can: bool)
    ensures
        can == fillable(type_tree(*data_type), len as nat),
    decreases type_tree(*data_type), 1nat,
{
    let ghost tree = type_tree(*data_type);
    if len > (isize::MAX as usize - 64) / 64 {
        return false;
    }
    let parts: Vec<DataType> = parts_of(data_type);
    proof {
        assert(type_trees(parts@).len() == parts@.len());
        assert forall|i: int| 0 <= i < parts@.len() implies tree.parts[i] == type_tree(
            #[trigger] parts@[i],
        ) by {
            assert(type_trees(parts@)[i] == type_tree(parts@[i]));
        }
    }
    match nesting_of(data_type) {
        Nesting::Flat => match leaf_of(data_type) {
            Leaf::OddTime => false,
            Leaf::FixedBytes(size) => size >= 0 && match (size as usize).checked_mul(len) {
                Some(bytes) => bytes <= i32::MAX as usize,
                None => false,
            },
            _ => true,
        },
        Nesting::List | Nesting::ListView => can_fill(&parts[0], 0),
        Nesting::FixedList(size) => if len == 0 {
            can_fill(&parts[0], 0)
        } else {
            size >= 0 && match (size as usize).checked_mul(len) {
                Some(items) => can_fill(&parts[0], items),
                None => {
                    proof {
                        assert(!can_lay_out((size * len) as nat));
                        assert(!fillable(tree.parts[0], (size * len) as nat));
                    }
                    false
                },
            }
        },
        Nesting::Pairs => {
            let inner: Vec<DataType> = parts_of(&parts[0]);
            proof {
                assert(type_trees(inner@).len() == inner@.len());
            }
            nesting_of(&parts[0]) == Nesting::Struct && inner.len() == 2 && can_fill(&parts[0], 0)
        },
        Nesting::Struct => can_fill_all(&parts, 0, len, Ghost(tree)),
        Nesting::SparseUnion => parts.len() > 0 && can_fill_all(&parts, 0, len, Ghost(tree)),
        Nesting::DenseUnion => {
            if parts.len() == 0 || len > i32::MAX as usize || !can_fill(&parts[0], len) {
                proof {
                    assert(parts@.len() > 0 ==> type_tree(parts@[0]) == tree.parts[0]);
                }
                return false;
            }
            let rest: bool = can_fill_all(&parts, 1, 0, Ghost(tree));
            proof {
                if rest {
                    assert(fillable(tree, len as nat));
                } else {
                    let i = choose|i: int|
                        1 <= i < tree.parts.len() && !fillable(#[trigger] tree.parts[i], 0);
                    assert(!fillable(tree.parts[i], if i == 0 { len as nat } else { 0 }));
                }
            }
            rest
        },
        Nesting::Dictionary => parts[0].is_dictionary_key_type() && can_fill(&parts[1], 0),
        Nesting::Runs => parts[0].is_run_ends_type() && ends_fit(parts[0].primitive_width(), len)
            && can_fill(&parts[1], 1),
    }
}

/// Whether the last run can end at a number.
fn ends_fit(width: Option<usize>, len: usize) -> (fit: bool)
    ensures
        fit == run_fits(width, len as nat),
{
    match width {
        Some(2) => len <= i16::MAX as usize,
        Some(4) => len <= i32::MAX as usize,
        _ => len as u64 <= i64::MAX as u64,
    }
}

/// Arrow makes empty columns of the types of fields.
pub open spec fn can_be_empty(list: Seq<FieldView>) -> bool {
    forall|i: int| 0 <= i < list.len() ==> fillable((#[trigger] list[i]).tree, 0)
}

/// Whether arrow makes empty columns of the types of a schema.
pub fn all_can_be_empty(schema: &Schema) -> (can: bool)
    ensures
        can == can_be_empty(fields(*schema)),
{
    let list: Vec<DataType> = field_types(schema);
    proof {
        assert(type_trees(list@).len() == trees_of(fields(*schema)).len());
    }
    for k in 0..list.len()
        invariant
            type_trees(list@) == trees_of(fields(*schema)),
            list@.len() == fields(*schema).len(),
            forall|i: int| 0 <= i < k ==> fillable((#[trigger] fields(*schema)[i]).tree, 0),
    {
        proof {
            assert(type_trees(list@)[k as int] == type_tree(list@[k as int]));
            assert(trees_of(fields(*schema))[k as int] == fields(*schema)[k as int].tree);
        }
        if !can_fill(&list[k], 0) {
            proof {
                assert(!fillable(fields(*schema)[k as int].tree, 0));
            }
            return false;
        }
    }
    true
}

/// Where so many nulls of a type can be laid out, so can fewer.
pub proof fn law_fewer_nulls_are_no_harder(tree: TypeTree, len: nat, fewer: nat)
    requires
        fillable(tree, len),
        fewer <= len,
    ensures
        fillable(tree, fewer),
    decreases tree,
{
    match tree.nesting {
        Nesting::Flat => {
            if let Leaf::FixedBytes(size) = tree.leaf {
                assert(size * fewer <= size * len) by (nonlinear_arith)
                    requires
                        size >= 0,
                        fewer <= len,
                ;
            }
        },
        Nesting::FixedList(size) => {
            if len > 0 && fewer > 0 {
                assert(0 <= size * fewer <= size * len) by (nonlinear_arith)
                    requires
                        size >= 0,
                        fewer <= len,
                ;
                law_fewer_nulls_are_no_harder(
                    tree.parts[0],
                    (size * len) as nat,
                    (size * fewer) as nat,
                );
            } else if len > 0 {
                assert(0 <= size * len) by (nonlinear_arith)
                    requires
                        size >= 0,
                ;
                law_fewer_nulls_are_no_harder(tree.parts[0], (size * len) as nat, 0);
            }
        },
        Nesting::Struct | Nesting::SparseUnion => {
            assert forall|i: int| 0 <= i < tree.parts.len() implies fillable(
                #[trigger] tree.parts[i],
                fewer,
            ) by {
                law_fewer_nulls_are_no_harder(tree.parts[i], len, fewer);
            }
        },
        Nesting::DenseUnion => {
            law_fewer_nulls_are_no_harder(tree.parts[0], len, fewer);
            assert forall|i: int| 0 <= i < tree.parts.len() implies fillable(
                #[trigger] tree.parts[i],
                if i == 0 {
                    fewer
                } else {
                    0
                },
            ) by {
                assert(fillable(
                    tree.parts[i],
                    if i == 0 {
                        len
                    } else {
                        0
                    },
                ));
            }
        },
        _ => {},
    }
}

/// There are empty columns of the types of fields exactly if there are of each of them.
pub proof fn law_fields_can_be_empty_one_by_one(list: Seq<FieldView>, field: FieldView)
    ensures
        can_be_empty(Seq::<FieldView>::empty()),
        can_be_empty(list.push(field)) <==> can_be_empty(list) && fillable(field.tree, 0),
{
    let all = list.push(field);
    if can_be_empty(all) {
        assert(fillable(all[list.len() as int].tree, 0));
        assert forall|i: int| 0 <= i < list.len() implies fillable(
            (#[trigger] list[i]).tree,
            0,
        ) by {
            assert(all[i] == list[i]);
        }
    }
}

/// There are empty columns of a type that is not made of others, unless it is that of times
/// of day in an odd unit or of a negative number of bytes. Of values side by side there
/// are exactly if there are of each of them.
pub proof fn law_structs_can_be_empty_if_their_parts_can(tree: TypeTree)
    ensures
        tree.nesting is Flat ==> (fillable(tree, 0) <==> !(tree.leaf is OddTime)
            && !(tree.leaf matches Leaf::FixedBytes(size) && size < 0)),
        tree.nesting is Struct ==> (fillable(tree, 0) <==> forall|i: int|
            0 <= i < tree.parts.len() ==> fillable(#[trigger] tree.parts[i], 0)),
{
}

/// Which nulls can be laid out comes down to those of the types that a type is made of:
/// of lists and dictionaries none of their values, of values side by side as many of each,
/// of a union without room for all as many of the first, and of runs one.
pub proof fn law_nulls_are_made_of_those_of_the_parts(tree: TypeTree, len: nat)
    requires
        64 * len + 64 <= isize::MAX,
    ensures
        (tree.nesting is List || tree.nesting is ListView) && tree.parts.len() == 1 ==> (fillable(
            tree,
            len,
        ) <==> fillable(tree.parts[0], 0)),
        tree.nesting is Struct ==> (fillable(tree, len) <==> forall|i: int|
            0 <= i < tree.parts.len() ==> fillable(#[trigger] tree.parts[i], len)),
        tree.nesting is SparseUnion && tree.parts.len() > 0 ==> (fillable(tree, len) <==> forall|
            i: int,
        |
            0 <= i < tree.parts.len() ==> fillable(#[trigger] tree.parts[i], len)),
        tree.nesting is DenseUnion && tree.parts.len() > 0 && len <= i32::MAX ==> (fillable(
            tree,
            len,
        ) <==> fillable(tree.parts[0], len) && forall|i: int|
            1 <= i < tree.parts.len() ==> fillable(#[trigger] tree.parts[i], 0)),
        tree.nesting is Dictionary && tree.parts.len() == 2 ==> (fillable(tree, len) <==> fillable(
            tree.parts[1],
            0,
        ) && tree.parts[0].key),
        tree.nesting is Runs && tree.parts.len() == 2 && len <= i16::MAX ==> (fillable(
            tree,
            len,
        ) <==> fillable(tree.parts[1], 1) && tree.parts[0].run_end),
        (tree.nesting matches Nesting::FixedList(size) && size >= 0 && len > 0
            && tree.parts.len() == 1) ==> (fillable(tree, len) <==> fillable(
            tree.parts[0],
            (tree.nesting->FixedList_0 * len) as nat,
        )),
        tree.nesting is Flat && !(tree.leaf is OddTime) && !(tree.leaf is FixedBytes) ==> fillable(
            tree,
            len,
        ),
        (tree.nesting is Flat && tree.leaf is FixedBytes) ==> (fillable(tree, len) <==> 0
            <= tree.leaf->FixedBytes_0 && tree.leaf->FixedBytes_0 * len <= i32::MAX),
{
    if tree.nesting is DenseUnion && tree.parts.len() > 0 && len <= i32::MAX {
        if fillable(tree, len) {
            assert forall|i: int| 0 <= i < tree.parts.len() implies fillable(
                #[trigger] tree.parts[i],
                if i == 0 {
                    len
                } else {
                    0
                },
            ) by {}
            assert(fillable(tree.parts[0], len));
        }
    }
}

} // verus!
