//! The statistics that a footer keeps of each column, as far as it matters for
//! holding them against a predicate.

use crate::access::row_groups;
use crate::schema::{columns, fields, names, FieldView};
use crate::text::texts;
use crate::types::{
    can_fill, field_types, fillable, leaf_of, nested, nesting_of, parts_of, trees_of, type_tree,
    type_trees, Leaf, Nesting, TypeTree,
};
use datafusion::arrow::datatypes::{DataType, Schema};
use datafusion::parquet::basic::Type;
use datafusion::parquet::data_type::{ByteArray, FixedLenByteArray};
use datafusion::parquet::file::metadata::ParquetMetaData;
use datafusion::parquet::file::statistics::Statistics;
use datafusion::physical_expr::utils::collect_columns;
use datafusion::physical_optimizer::pruning::PruningPredicate;
use vstd::prelude::*;

verus! {

/// The bounds that are kept of one column of one row group: the number of bytes of
/// the lower and of the upper one, and whether they are kept as bytes.
#[derive(Debug, Clone, Copy, PartialEq, Eq)]
pub struct Bounds {
    pub bytes: bool,
    pub min: Option<usize>,
    pub max: Option<usize>,
}

/// For each row group and column of a footer, whether the lower and the upper bound
/// are there but were never given bytes.
pub uninterp spec fn unset_bounds(metadata: ParquetMetaData) -> Seq<Seq<(bool, bool)>>;

/// The bounds that a footer keeps of each column of each row group.
pub uninterp spec fn kept_bounds(metadata: ParquetMetaData) -> Seq<Seq<Option<Bounds>>>;

/// For each leaf column of a footer's schema, the top-level column that it is in.
pub uninterp spec fn leaf_roots(metadata: ParquetMetaData) -> Seq<usize>;

/// The fields that a predicate was made for.
pub uninterp spec fn predicate_fields(predicate: PruningPredicate) -> Seq<FieldView>;

/// The columns that a predicate names.
pub uninterp spec fn predicate_columns(predicate: PruningPredicate) -> Set<Seq<char>>;

/// The rows of a table.
pub open spec fn table_view<T>(table: Seq<Vec<T>>) -> Seq<Seq<T>> {
    table.map_values(|row: Vec<T>| row@)
}

/// A table has a row for each row group of a footer, and in it a value for each
/// column.
pub open spec fn covers<T>(table: Seq<Seq<T>>, metadata: ParquetMetaData) -> bool {
    &&& table.len() == row_groups(metadata).len()
    &&& forall|g: int|
        0 <= g < table.len() ==> (#[trigger] table[g]).len() == row_groups(metadata)[g].chunks.len()
}

/// No bound was left without bytes.
pub open spec fn all_set(unset: Seq<Seq<(bool, bool)>>) -> bool {
    forall|g: int, c: int|
        0 <= g < unset.len() && 0 <= c < unset[g].len() ==> #[trigger] unset[g][c] == (false, false)
}

/// A footer is as one that was read from a file: each row group has a chunk for each
/// leaf column, and no bound was left without bytes.
pub open spec fn complete(metadata: ParquetMetaData) -> bool {
    &&& forall|g: int|
        0 <= g < row_groups(metadata).len() ==> (#[trigger] row_groups(metadata)[g]).chunks.len()
            == leaf_roots(metadata).len()
    &&& all_set(unset_bounds(metadata))
}

/// `ValueStatistics::min_opt` and `max_opt`, compared with `ByteArray::new` and
/// `FixedLenByteArray::default`, which hold no bytes.
#[verifier::external_body]
pub(crate) fn read_unset_bounds(metadata: &ParquetMetaData) -> (table: Vec<Vec<(bool, bool)>>)
    ensures
        table_view(table@) == unset_bounds(*metadata),
        covers(table_view(table@), *metadata),
{
    let byte = Some(ByteArray::new());
    let fixed = Some(FixedLenByteArray::default());
    let groups = metadata.row_groups().iter().map(|group| {
        let chunks = group.columns().iter().map(|chunk| match chunk.statistics() {
            Some(Statistics::ByteArray(s)) =>
                (s.min_opt() == byte.as_ref(), s.max_opt() == byte.as_ref()),
            Some(Statistics::FixedLenByteArray(s)) =>
                (s.min_opt() == fixed.as_ref(), s.max_opt() == fixed.as_ref()),
            _ => (false, false),
        });
        chunks.collect()
    });
    groups.collect()
}

/// `Statistics::min_bytes_opt` and `max_bytes_opt`, of which the lengths are read. No
/// bound may be without bytes.
#[verifier::external_body]
pub(crate) fn read_bounds(metadata: &ParquetMetaData) -> (table: Vec<Vec<Option<Bounds>>>)
    requires
        all_set(unset_bounds(*metadata)),
    ensures
        table_view(table@) == kept_bounds(*metadata),
        covers(table_view(table@), *metadata),
{
    let groups = metadata.row_groups().iter().map(|group| {
        let chunks = group.columns().iter().map(|chunk| chunk.statistics().map(|s| Bounds {
            bytes: matches!(s.physical_type(), Type::BYTE_ARRAY | Type::FIXED_LEN_BYTE_ARRAY),
            min: s.min_bytes_opt().map(|bytes| bytes.len()),
            max: s.max_bytes_opt().map(|bytes| bytes.len()),
        }));
        chunks.collect()
    });
    groups.collect()
}

/// `SchemaDescriptor::get_column_root_idx`, for each leaf column.
#[verifier::external_body]
pub(crate) fn read_leaf_roots(metadata: &ParquetMetaData) -> (roots: Vec<usize>)
    ensures
        roots@ == leaf_roots(*metadata),
{
    let descriptor = metadata.file_metadata().schema_descr();
    (0..descriptor.num_columns()).map(|leaf| descriptor.get_column_root_idx(leaf)).collect()
}

/// `collect_columns`, on the expression that a predicate was made from: the names of
/// the columns in it, in no particular order.
#[verifier::external_body]
pub(crate) fn columns_named(predicate: &PruningPredicate) -> (list: Vec<String>)
    ensures
        texts(list@).to_set() == predicate_columns(*predicate),
{
    let found = collect_columns(predicate.orig_expr());
    found.iter().map(|column| column.name().to_string()).collect()
}

/// `x` is first found at `i`.
pub open spec fn first_at<T>(list: Seq<T>, x: T, i: int) -> bool {
    &&& 0 <= i < list.len()
    &&& list[i] == x
    &&& forall|j: int| 0 <= j < i ==> #[trigger] list[j] != x
}

/// The number of bytes of a bound, if it is kept as bytes.
pub open spec fn bound_length(bounds: Option<Bounds>, upper: bool) -> Option<usize> {
    match bounds {
        Some(b) => if !b.bytes {
            None
        } else if upper {
            b.max
        } else {
            b.min
        },
        None => None,
    }
}

/// The numbers of bytes of the bounds of a column, row group by row group.
pub open spec fn bound_lengths(bounds: Seq<Seq<Option<Bounds>>>, leaf: int, upper: bool) -> Seq<
    Option<usize>,
> {
    bounds.map_values(|row: Seq<Option<Bounds>>| bound_length(row[leaf], upper))
}

/// The bytes of bounds, in all.
pub open spec fn total_length(lengths: Seq<Option<usize>>) -> nat
    decreases lengths.len(),
{
    if lengths.len() == 0 {
        0
    } else {
        total_length(lengths.drop_last()) + match lengths.last() {
            Some(n) => n as nat,
            None => 0,
        }
    }
}

/// Bounds that are kept as bytes of some lengths can be turned to values of a type.
/// Decimals have to have a byte, and no more than their width. Texts and bytes
/// have to be found by their offsets or views.
pub open spec fn lengths_fit(tree: TypeTree, lengths: Seq<Option<usize>>) -> bool {
    match tree.leaf {
        Leaf::Decimal => forall|g: int|
            0 <= g < lengths.len() ==> (#[trigger] lengths[g] matches Some(n) ==> 1 <= n
                && tree.width is Some && n <= tree.width->0),
        Leaf::Offsets => total_length(lengths) <= i32::MAX,
        Leaf::Views => forall|g: int|
            0 <= g < lengths.len() ==> (#[trigger] lengths[g] matches Some(n) ==> n <= u32::MAX),
        Leaf::FixedBytes(size) => 1024 * size <= isize::MAX,
        _ => true,
    }
}

/// The bounds of a leaf column can be turned to values of a type, and to nulls where
/// there are none. Where the type is a dictionary's they are turned to its values, and
/// these are put in a dictionary.
pub open spec fn converts(tree: TypeTree, bounds: Seq<Seq<Option<Bounds>>>, leaf: int) -> bool
    decreases tree,
{
    &&& fillable(tree, bounds.len())
    &&& if tree.nesting == Nesting::Dictionary {
        tree.parts.len() == 2 && converts(tree.parts[1], bounds, leaf)
    } else {
        &&& lengths_fit(tree, bound_lengths(bounds, leaf, false))
        &&& lengths_fit(tree, bound_lengths(bounds, leaf, true))
    }
}

/// Statistics of the top-level column `root`, of a type, can be turned to values. They
/// are those of its first leaf column. Nulls stand for them if the type is made of
/// others, or if there is no such leaf column.
pub open spec fn column_readable(
    tree: TypeTree,
    root: usize,
    roots: Seq<usize>,
    bounds: Seq<Seq<Option<Bounds>>>,
) -> bool {
    if nested(tree) || !roots.contains(root) {
        fillable(tree, bounds.len())
    } else {
        forall|leaf: int| first_at(roots, root, leaf) ==> converts(tree, bounds, leaf)
    }
}

/// Statistics of the column with a name can be turned to values, if there is one.
pub open spec fn readable(
    list: Seq<FieldView>,
    roots: Seq<usize>,
    bounds: Seq<Seq<Option<Bounds>>>,
    name: Seq<char>,
) -> bool {
    forall|root: int| #[trigger]
        first_at(names(list), name, root) ==> column_readable(
            list[root].tree,
            root as usize,
            roots,
            bounds,
        )
}

/// A predicate was made for the fields of a schema, and the statistics of all columns
/// that it names can be turned to values.
pub open spec fn can_hold_against(
    list: Seq<FieldView>,
    roots: Seq<usize>,
    bounds: Seq<Seq<Option<Bounds>>>,
    predicate: PruningPredicate,
) -> bool {
    &&& predicate_fields(predicate) == list
    &&& forall|name: Seq<char>| #[trigger]
        predicate_columns(predicate).contains(name) ==> readable(list, roots, bounds, name)
}

/// Where something is first found.
fn first_of(list: &Vec<usize>, x: usize) -> (place: Option<usize>)
    ensures
        place matches Some(i) ==> first_at(list@, x, i as int),
        place is None ==> !list@.contains(x),
{
    for k in 0..list.len()
        invariant
            forall|j: int| 0 <= j < k ==> #[trigger] list@[j] != x,
    {
        if list[k] == x {
            return Some(k);
        }
    }
    None
}

/// Whether bounds that are kept as bytes can be turned to values of a type.
fn check_lengths(
    data_type: &DataType,
    bounds: &Vec<Vec<Option<Bounds>>>,
    leaf: usize,
    upper: bool,
) -> (fit: bool)
    requires
        forall|g: int| 0 <= g < bounds@.len() ==> leaf < (#[trigger] bounds@[g])@.len(),
    ensures
        fit == lengths_fit(
            type_tree(*data_type),
            bound_lengths(table_view(bounds@), leaf as int, upper),
        ),
{
    let ghost tree = type_tree(*data_type);
    let ghost lengths = bound_lengths(table_view(bounds@), leaf as int, upper);
    let kind: Leaf = leaf_of(data_type);
    let width: Option<usize> = data_type.primitive_width();
    if let Leaf::FixedBytes(size) = kind {
        return size < 0 || size as usize <= isize::MAX as usize / 1024;
    }
    let mut total: u64 = 0;
    for k in 0..bounds.len()
        invariant
            forall|g: int| 0 <= g < bounds@.len() ==> leaf < (#[trigger] bounds@[g])@.len(),
            tree == type_tree(*data_type),
            lengths == bound_lengths(table_view(bounds@), leaf as int, upper),
            kind == tree.leaf,
            !(kind is FixedBytes),
            width == tree.width,
            kind == Leaf::Offsets ==> total == total_length(lengths.take(k as int)) && total
                <= i32::MAX,
            kind == Leaf::Decimal ==> forall|g: int|
                0 <= g < k ==> (#[trigger] lengths[g] matches Some(n) ==> 1 <= n && width is Some
                    && n <= width->0),
            kind == Leaf::Views ==> forall|g: int|
                0 <= g < k ==> (#[trigger] lengths[g] matches Some(n) ==> n <= u32::MAX),
    {
        let kept: Option<Bounds> = bounds[k][leaf];
        let length: Option<usize> = match kept {
            Some(b) => if !b.bytes {
                None
            } else if upper {
                b.max
            } else {
                b.min
            },
            None => None,
        };
        proof {
            assert(table_view(bounds@)[k as int] == bounds@[k as int]@);
            assert(lengths[k as int] == length);
            assert(lengths.take(k + 1).drop_last() =~= lengths.take(k as int));
            assert(lengths.take(k + 1).last() == length);
        }
        if let Some(n) = length {
            let fits: bool = match kind {
                Leaf::Decimal => n >= 1 && match width {
                    Some(w) => n <= w,
                    None => false,
                },
                Leaf::Offsets => n <= i32::MAX as usize && n as u64 + total <= i32::MAX as u64,
                Leaf::Views => n as u64 <= u32::MAX as u64,
                _ => true,
            };
            if !fits {
                proof {
                    if kind == Leaf::Offsets {
                        lemma_total_grows(lengths, (k + 1) as nat);
                    }
                }
                return false;
            }
            if let Leaf::Offsets = kind {
                total += n as u64;
            }
        }
    }
    proof {
        assert(lengths.take(bounds@.len() as int) =~= lengths);
    }
    true
}

proof fn lemma_total_grows(lengths: Seq<Option<usize>>, k: nat)
    requires
        k <= lengths.len(),
    ensures
        total_length(lengths.take(k as int)) <= total_length(lengths),
    decreases lengths.len() - k,
{
    if k < lengths.len() {
        lemma_total_grows(lengths, k + 1);
        assert(lengths.take((k + 1) as int).drop_last() =~= lengths.take(k as int));
    } else {
        assert(lengths.take(k as int) =~= lengths);
    }
}

/// Whether the bounds of a leaf column can be turned to values of a type.
fn check_conversion(data_type: &DataType, bounds: &Vec<Vec<Option<Bounds>>>, leaf: usize) -> (can:
    bool)
    requires
        forall|g: int| 0 <= g < bounds@.len() ==> leaf < (#[trigger] bounds@[g])@.len(),
    ensures
        can == converts(type_tree(*data_type), table_view(bounds@), leaf as int),
    decreases type_tree(*data_type),
{
    if !can_fill(data_type, bounds.len()) {
        return false;
    }
    if nesting_of(data_type) == Nesting::Dictionary {
        let parts: Vec<DataType> = parts_of(data_type);
        proof {
            assert(type_trees(parts@)[1] == type_tree(parts@[1]));
        }
        return check_conversion(&parts[1], bounds, leaf);
    }
    check_lengths(data_type, bounds, leaf, false) && check_lengths(data_type, bounds, leaf, true)
}

/// Whether statistics of the column with a name can be turned to values.
pub(crate) fn check_readable(
    schema: &Schema,
    roots: &Vec<usize>,
    bounds: &Vec<Vec<Option<Bounds>>>,
    name: &str,
) -> (can: bool)
    requires
        forall|g: int| 0 <= g < bounds@.len() ==> (#[trigger] bounds@[g])@.len() == roots@.len(),
    ensures
        can == readable(fields(*schema), roots@, table_view(bounds@), name@),
{
    let ghost list = fields(*schema);
    let root: usize = match schema.index_of(name) {
        Ok(root) => root,
        Err(_) => {
            proof {
                assert forall|r: int| !first_at(names(list), name@, r) by {
                    if first_at(names(list), name@, r) {
                        assert(columns(*schema)[r] == name@);
                    }
                }
            }
            return true;
        },
    };
    let types: Vec<DataType> = field_types(schema);
    proof {
        assert(type_trees(types@).len() == trees_of(list).len());
        assert(type_trees(types@)[root as int] == type_tree(types@[root as int]));
        assert(trees_of(list)[root as int] == list[root as int].tree);
        assert(first_at(names(list), name@, root as int));
        assert forall|r: int| first_at(names(list), name@, r) implies r == root by {
            if r < root {
                assert(columns(*schema)[r] != name@);
            } else if r > root {
                assert(names(list)[root as int] != name@);
            }
        }
    }
    let data_type: &DataType = &types[root];
    match first_of(roots, root) {
        Some(leaf) if !data_type.is_nested() => {
            proof {
                assert(first_at(roots@, root, leaf as int));
                assert forall|p: int| first_at(roots@, root, p) implies p == leaf by {
                    if p < leaf {
                        assert(roots@[p] != root);
                    } else if p > leaf {
                        assert(roots@[leaf as int] != root);
                    }
                }
            }
            check_conversion(data_type, bounds, leaf)
        },
        _ => can_fill(data_type, bounds.len()),
    }
}

/// The bytes of bounds add up, bound by bound; one that is not there has none.
pub proof fn law_lengths_add_up(lengths: Seq<Option<usize>>, length: Option<usize>)
    ensures
        total_length(Seq::<Option<usize>>::empty()) == 0,
        total_length(lengths.push(length)) == total_length(lengths) + match length {
            Some(n) => n as nat,
            None => 0,
        },
{
    assert(lengths.push(length).drop_last() =~= lengths);
}

/// Without bounds nothing is too long.
proof fn lemma_no_lengths(lengths: Seq<Option<usize>>)
    requires
        forall|g: int| 0 <= g < lengths.len() ==> #[trigger] lengths[g] is None,
    ensures
        total_length(lengths) == 0,
    decreases lengths.len(),
{
    if lengths.len() > 0 {
        let init = lengths.drop_last();
        assert(lengths[lengths.len() - 1] is None);
        assert forall|g: int| 0 <= g < init.len() implies #[trigger] init[g] is None by {
            assert(lengths[g] is None);
        }
        lemma_no_lengths(init);
    }
}

/// Where no bounds are kept, or none as bytes, the statistics of a column can be turned to
/// values if nulls can. Dictionaries and bytes of a fixed number are another matter.
pub proof fn law_columns_without_bounds_are_readable(
    tree: TypeTree,
    bounds: Seq<Seq<Option<Bounds>>>,
    leaf: int,
)
    requires
        fillable(tree, bounds.len()),
        tree.nesting != Nesting::Dictionary,
        !(tree.leaf is FixedBytes),
        forall|g: int|
            0 <= g < bounds.len() ==> ((#[trigger] bounds[g])[leaf] matches Some(b) ==> !b.bytes),
    ensures
        converts(tree, bounds, leaf),
{
    let lower = bound_lengths(bounds, leaf, false);
    let upper = bound_lengths(bounds, leaf, true);
    assert forall|g: int| 0 <= g < lower.len() implies #[trigger] lower[g] is None by {
        assert(bounds[g][leaf] matches Some(b) ==> !b.bytes);
    }
    assert forall|g: int| 0 <= g < upper.len() implies #[trigger] upper[g] is None by {
        assert(bounds[g][leaf] matches Some(b) ==> !b.bytes);
    }
    lemma_no_lengths(lower);
    lemma_no_lengths(upper);
}

proof fn lemma_total_is_sum(lengths: Seq<Option<usize>>)
    ensures
        total_length(lengths) == lengths.fold_left(
            0nat,
            |sum: nat, length: Option<usize>|
                sum + match length {
                    Some(n) => n as nat,
                    None => 0,
                },
        ),
    decreases lengths.len(),
{
    if lengths.len() > 0 {
        lemma_total_is_sum(lengths.drop_last());
    }
}

/// Bounds of texts and bytes fit if their offsets do, or if each of them does where they
/// are found by views. Bounds of decimals fit if each has a byte and no more than the width.
pub proof fn law_bounds_fit_by_kind(tree: TypeTree, lengths: Seq<Option<usize>>)
    ensures
        tree.leaf is Offsets ==> (lengths_fit(tree, lengths) <==> lengths.fold_left(
            0nat,
            |sum: nat, length: Option<usize>|
                sum + match length {
                    Some(n) => n as nat,
                    None => 0,
                },
        ) <= i32::MAX),
        tree.leaf is Views ==> (lengths_fit(tree, lengths) <==> forall|g: int|
            0 <= g < lengths.len() && (#[trigger] lengths[g]) is Some ==> lengths[g]->0
                <= u32::MAX),
        tree.leaf is Decimal && tree.width is Some ==> (lengths_fit(tree, lengths) <==> forall|
            g: int,
        |
            0 <= g < lengths.len() && (#[trigger] lengths[g]) is Some ==> 0 < lengths[g]->0
                <= tree.width->0),
        tree.leaf is Null || tree.leaf is OddTime || tree.leaf is Other ==> lengths_fit(
            tree,
            lengths,
        ),
{
    lemma_total_is_sum(lengths);
}

/// The statistics of a column are those of the first field with its name; of a column that
/// is not there nothing has to be turned to values.
pub proof fn law_first_field_of_a_name_is_read(
    list: Seq<FieldView>,
    roots: Seq<usize>,
    bounds: Seq<Seq<Option<Bounds>>>,
    name: Seq<char>,
    root: int,
)
    ensures
        (forall|i: int| 0 <= i < list.len() ==> (#[trigger] list[i]).name != name) ==> readable(
            list,
            roots,
            bounds,
            name,
        ),
        (0 <= root < list.len() && list[root].name == name && forall|i: int|
            0 <= i < root ==> (#[trigger] list[i]).name != name) ==> (readable(
            list,
            roots,
            bounds,
            name,
        ) <==> column_readable(list[root].tree, root as usize, roots, bounds)),
{
    if forall|i: int| 0 <= i < list.len() ==> (#[trigger] list[i]).name != name {
        assert forall|r: int| !#[trigger] first_at(names(list), name, r) by {
            if first_at(names(list), name, r) {
                assert(list[r].name == name);
            }
        }
    }
    if 0 <= root < list.len() && list[root].name == name && (forall|i: int|
        0 <= i < root ==> (#[trigger] list[i]).name != name) {
        assert forall|i: int| 0 <= i < root implies #[trigger] names(list)[i] != name by {
            assert(list[i].name != name);
        }
        assert(first_at(names(list), name, root));
        assert forall|r: int| #[trigger] first_at(names(list), name, r) implies r == root by {
            assert(list[r].name == name);
            if r > root {
                assert(names(list)[root] != name);
            }
        }
    }
}

/// The statistics of a column are those of its first leaf column, unless its type is made
/// of others or it has none; then nulls stand for them.
pub proof fn law_first_leaf_of_a_column_is_read(
    tree: TypeTree,
    root: usize,
    roots: Seq<usize>,
    bounds: Seq<Seq<Option<Bounds>>>,
    leaf: int,
)
    ensures
        nested(tree) || (forall|i: int| 0 <= i < roots.len() ==> #[trigger] roots[i] != root) ==> (
        column_readable(tree, root, roots, bounds) <==> fillable(tree, bounds.len())),
        (!nested(tree) && 0 <= leaf < roots.len() && roots[leaf] == root && forall|i: int|
            0 <= i < leaf ==> #[trigger] roots[i] != root) ==> (column_readable(
            tree,
            root,
            roots,
            bounds,
        ) <==> converts(tree, bounds, leaf)),
{
    if !nested(tree) && 0 <= leaf < roots.len() && roots[leaf] == root && (forall|i: int|
        0 <= i < leaf ==> #[trigger] roots[i] != root) {
        assert(roots.contains(roots[leaf]));
        assert(first_at(roots, root, leaf));
        assert forall|p: int| first_at(roots, root, p) implies p == leaf by {
            if p > leaf {
                assert(roots[leaf] != root);
            }
        }
    }
}

/// The bounds of a column that is a dictionary are read as those of its values; of any
/// other column both the lower and the upper bounds have to fit.
pub proof fn law_both_bounds_have_to_fit(
    tree: TypeTree,
    bounds: Seq<Seq<Option<Bounds>>>,
    leaf: int,
)
    requires
        fillable(tree, bounds.len()),
    ensures
        tree.nesting is Dictionary && tree.parts.len() == 2 ==> (converts(tree, bounds, leaf)
            <==> converts(tree.parts[1], bounds, leaf)),
        !(tree.nesting is Dictionary) ==> (converts(tree, bounds, leaf) <==> lengths_fit(
            tree,
            bounds.map_values(
                |row: Seq<Option<Bounds>>|
                    match row[leaf] {
                        Some(b) if b.bytes => b.min,
                        _ => None,
                    },
            ),
        ) && lengths_fit(
            tree,
            bounds.map_values(
                |row: Seq<Option<Bounds>>|
                    match row[leaf] {
                        Some(b) if b.bytes => b.max,
                        _ => None,
                    },
            ),
        )),
{
    assert(bound_lengths(bounds, leaf, false) =~= bounds.map_values(
        |row: Seq<Option<Bounds>>|
            match row[leaf] {
                Some(b) if b.bytes => b.min,
                _ => None,
            },
    ));
    assert(bound_lengths(bounds, leaf, true) =~= bounds.map_values(
        |row: Seq<Option<Bounds>>|
            match row[leaf] {
                Some(b) if b.bytes => b.max,
                _ => None,
            },
    ));
}

} // verus!
