//! What the library knows of an arrow schema: its top-level fields and its
//! key-value metadata.

use crate::types::{can_be_empty, Leaf, Nesting, TypeTree};
use datafusion::arrow::datatypes::Schema;
use datafusion::arrow::error::ArrowError;
use std::sync::Arc;
use vstd::prelude::*;

verus! {

/// An arrow schema. Opaque but for [`fields`] and [`schema_metadata`].
#[verifier::external_type_specification]
#[verifier::external_body]
pub struct ExSchema(Schema);

/// The error that arrow reports.
#[verifier::external_type_specification]
#[verifier::external_body]
pub struct ExArrowError(ArrowError);

/// A top-level field. The text of `data_type` tells different types apart, and `tree`
/// tells how the type is made up. `ordered` tells whether the field is marked as an
/// ordered dictionary.
#[verifier::ext_equal]
pub struct FieldView {
    pub name: Seq<char>,
    pub data_type: Seq<char>,
    pub tree: TypeTree,
    pub nullable: bool,
    pub ordered: bool,
    pub metadata: Map<Seq<char>, Seq<char>>,
}

impl FieldView {
    /// The type merges with itself alone: it is not that of structs, of unions, of
    /// lists that are found by offsets, or of nulls alone.
    pub open spec fn plain(self) -> bool {
        match self.tree.nesting {
            Nesting::Struct | Nesting::SparseUnion | Nesting::DenseUnion | Nesting::List => false,
            Nesting::Flat => self.tree.leaf != Leaf::Null,
            _ => true,
        }
    }
}

/// A schema's top-level fields, in order.
pub uninterp spec fn fields(schema: Schema) -> Seq<FieldView>;

/// The names of fields.
pub open spec fn names(list: Seq<FieldView>) -> Seq<Seq<char>> {
    list.map_values(|f: FieldView| f.name)
}

/// The names of a schema's top-level fields, in order.
pub open spec fn columns(schema: Schema) -> Seq<Seq<char>> {
    names(fields(schema))
}

/// A schema's key-value metadata.
pub uninterp spec fn schema_metadata(schema: Schema) -> Map<Seq<char>, Seq<char>>;

/// What contracts read of a schema.
#[verifier::ext_equal]
pub struct SchemaView {
    pub columns: Seq<Seq<char>>,
    pub metadata: Map<Seq<char>, Seq<char>>,
}

/// The view of a schema.
pub open spec fn schema_view(schema: Schema) -> SchemaView {
    SchemaView { columns: columns(schema), metadata: schema_metadata(schema) }
}

/// The views of several schemas.
pub open spec fn schema_views(schemas: Seq<Schema>) -> Seq<SchemaView> {
    schemas.map_values(|s: Schema| schema_view(s))
}

/// The views of several shared schemas.
pub open spec fn shared_views(schemas: Seq<Arc<Schema>>) -> Seq<SchemaView> {
    schemas.map_values(|s: Arc<Schema>| schema_view(*s))
}

/// The column names of several schemas, one after another.
pub open spec fn all_columns(parts: Seq<SchemaView>) -> Seq<Seq<char>>
    decreases parts.len(),
{
    if parts.len() == 0 {
        Seq::empty()
    } else {
        all_columns(parts.drop_last()) + parts.last().columns
    }
}

/// The fields of several schemas, one after another.
pub open spec fn all_fields(parts: Seq<Seq<FieldView>>) -> Seq<FieldView>
    decreases parts.len(),
{
    if parts.len() == 0 {
        Seq::empty()
    } else {
        all_fields(parts.drop_last()) + parts.last()
    }
}

/// The fields of each of several schemas.
pub open spec fn field_lists(schemas: Seq<Schema>) -> Seq<Seq<FieldView>> {
    schemas.map_values(|s: Schema| fields(s))
}

/// The fields of each of several shared schemas.
pub open spec fn shared_fields(schemas: Seq<Arc<Schema>>) -> Seq<Seq<FieldView>> {
    schemas.map_values(|s: Arc<Schema>| fields(*s))
}

/// The names of `list`, each at its first occurrence only.
pub open spec fn distinct(list: Seq<Seq<char>>) -> Seq<Seq<char>>
    decreases list.len(),
{
    if list.len() == 0 {
        Seq::empty()
    } else {
        let before = distinct(list.drop_last());
        if before.contains(list.last()) {
            before
        } else {
            before.push(list.last())
        }
    }
}

/// The metadata of several schemas, united.
pub open spec fn all_metadata(parts: Seq<SchemaView>) -> Map<Seq<char>, Seq<char>>
    decreases parts.len(),
{
    if parts.len() == 0 {
        Map::empty()
    } else {
        all_metadata(parts.drop_last()).union_prefer_right(parts.last().metadata)
    }
}

/// The merger of several schemas: every column once, where it occurs first, and
/// all metadata.
pub open spec fn merged(parts: Seq<SchemaView>) -> SchemaView {
    SchemaView { columns: distinct(all_columns(parts)), metadata: all_metadata(parts) }
}

/// Two schemas give the metadata key `key` two values.
pub open spec fn conflict_at(parts: Seq<SchemaView>, i: int, j: int, key: Seq<char>) -> bool {
    &&& 0 <= i < j < parts.len()
    &&& parts[i].metadata.contains_key(key)
    &&& parts[j].metadata.contains_key(key)
    &&& parts[i].metadata[key] != parts[j].metadata[key]
}

/// Two schemas give one metadata key two values.
pub open spec fn metadata_conflict(parts: Seq<SchemaView>) -> bool {
    exists|i: int, j: int, key: Seq<char>| conflict_at(parts, i, j, key)
}

/// A merger that cannot fail: no column name occurs twice and no metadata key
/// has two values.
pub open spec fn mergeable(parts: Seq<SchemaView>) -> bool {
    &&& all_columns(parts).no_duplicates()
    &&& !metadata_conflict(parts)
}

/// Two fields give no metadata key two values.
pub open spec fn metadata_agrees(a: FieldView, b: FieldView) -> bool {
    forall|key: Seq<char>| #[trigger]
        a.metadata.contains_key(key) && b.metadata.contains_key(key) ==> a.metadata[key]
            == b.metadata[key]
}

/// Two fields of one name make one: they are of one plain type, marked alike, and
/// their metadata is not at odds. Whether they are nullable does not matter.
pub open spec fn can_join(a: FieldView, b: FieldView) -> bool {
    &&& a.plain() && b.plain()
    &&& a.data_type == b.data_type
    &&& a.ordered == b.ordered
    &&& metadata_agrees(a, b)
}

/// Two fields of one name cannot make one: they are of two plain types, are not
/// marked alike, or their metadata is at odds.
pub open spec fn clash(a: FieldView, b: FieldView) -> bool {
    ||| a.plain() && b.plain() && a.data_type != b.data_type
    ||| a.ordered != b.ordered
    ||| !metadata_agrees(a, b)
}

/// Fields that share a name make one.
pub open spec fn joinable(list: Seq<FieldView>) -> bool {
    forall|i: int, j: int|
        0 <= i < j < list.len() && (#[trigger] list[i]).name == (#[trigger] list[j]).name
            ==> can_join(list[i], list[j])
}

/// Two fields that share a name cannot make one.
pub open spec fn clashing(list: Seq<FieldView>) -> bool {
    exists|i: int, j: int|
        0 <= i < j < list.len() && (#[trigger] list[i]).name == (#[trigger] list[j]).name && clash(
            list[i],
            list[j],
        )
}

/// Fields that share a name are plain.
pub open spec fn shared_names_are_plain(list: Seq<FieldView>) -> bool {
    forall|i: int, j: int|
        0 <= i < j < list.len() && (#[trigger] list[i]).name == (#[trigger] list[j]).name
            ==> list[i].plain() && list[j].plain()
}

/// What a field becomes when another of its name is taken in: nullable if one of
/// them is, and with the metadata of both.
pub open spec fn joined(field: FieldView, other: FieldView) -> FieldView {
    FieldView {
        nullable: field.nullable || other.nullable,
        metadata: field.metadata.union_prefer_right(other.metadata),
        ..field
    }
}

/// The fields of `list`, each name at its first occurrence only, where all fields
/// of that name are taken in.
pub open spec fn joined_fields(list: Seq<FieldView>) -> Seq<FieldView>
    decreases list.len(),
{
    if list.len() == 0 {
        Seq::empty()
    } else {
        let before = joined_fields(list.drop_last());
        let last = list.last();
        if names(before).contains(last.name) {
            before.map_values(
                |f: FieldView|
                    if f.name == last.name {
                        joined(f, last)
                    } else {
                        f
                    },
            )
        } else {
            before.push(last)
        }
    }
}

/// What a merger of `parts`, whose fields are `lists`, gives back.
pub open spec fn merges_to(
    parts: Seq<SchemaView>,
    lists: Seq<Seq<FieldView>>,
    result: Result<Schema, ArrowError>,
) -> bool {
    let list = all_fields(lists);
    &&& result matches Ok(m) ==> {
        &&& schema_view(m) == merged(parts)
        &&& joinable(list) ==> fields(m) == joined_fields(list)
        &&& can_be_empty(list) ==> can_be_empty(fields(m))
    }
    &&& joinable(list) && !metadata_conflict(parts) ==> result is Ok
    &&& clashing(list) || metadata_conflict(parts) ==> result is Err
}

/// `Schema::try_merge`. The merged schema lists every column once, where it
/// occurs first, and unites the metadata. Conflicting metadata is an error, and so
/// are two columns of one name that are of two plain types, are not marked alike
/// or have conflicting metadata. Otherwise schemas merge whose columns of one name
/// are plain; such columns become one that is nullable if one of them is and has the
/// metadata of all, and other columns are taken over as they are. Types of which there
/// are empty columns merge to such types. Whether columns of one name that are not
/// plain can be merged is not said here: it is also a matter of whether they are one
/// object in memory.
#[verifier::external_body]
pub(crate) fn try_merge(schemas: Vec<Schema>) -> (result: Result<Schema, ArrowError>)
    ensures
        merges_to(schema_views(schemas@), field_lists(schemas@), result),
{
    Schema::try_merge(schemas)
}

/// `Schema::clone`: the copy has the same fields and the same metadata.
pub assume_specification[ <Schema as Clone>::clone ](schema: &Schema) -> (copy: Schema)
    ensures
        fields(copy) == fields(*schema),
        schema_metadata(copy) == schema_metadata(*schema),
;

/// `Schema::index_of`: the first position of a column name, or an error when no
/// column has that name.
pub assume_specification[ Schema::index_of ](schema: &Schema, name: &str) -> (found: Result<
    usize,
    ArrowError,
>)
    ensures
        found matches Ok(i) ==> {
            &&& i < columns(*schema).len()
            &&& columns(*schema)[i as int] == name@
            &&& forall|j: int| 0 <= j < i ==> columns(*schema)[j] != name@
        },
        found is Err ==> !columns(*schema).contains(name@),
;

/// `Schema::field`, of which only the name is read.
#[verifier::external_body]
pub(crate) fn field_name(schema: &Schema, i: usize) -> (name: String)
    requires
        i < columns(*schema).len(),
    ensures
        name@ == columns(*schema)[i as int],
{
    schema.field(i).name().clone()
}

/// `Arc::clone`: another handle on the same value.
#[verifier::external_body]
pub(crate) fn share<T>(handle: &Arc<T>) -> (other: Arc<T>)
    ensures
        other == *handle,
{
    Arc::clone(handle)
}

/// Merges the schemas of `parts`, in order.
pub fn merge_all(parts: &Vec<Arc<Schema>>) -> (result: Result<Schema, ArrowError>)
    ensures
        merges_to(shared_views(parts@), shared_fields(parts@), result),
{
    let mut schemas: Vec<Schema> = Vec::new();
    for k in 0..parts.len()
        invariant
            schemas@.len() == k,
            forall|i: int|
                0 <= i < k ==> fields(#[trigger] schemas@[i]) == fields(*parts@[i])
                    && schema_metadata(schemas@[i]) == schema_metadata(*parts@[i]),
    {
        let part: &Schema = &parts[k];
        schemas.push(part.clone());
    }
    proof {
        assert(schema_views(schemas@) =~= shared_views(parts@));
        assert(field_lists(schemas@) =~= shared_fields(parts@));
    }
    try_merge(schemas)
}

/// Taking in fields whose name occurs again leaves out the names that do.
pub proof fn lemma_names_of_joined_fields(list: Seq<FieldView>)
    ensures
        names(joined_fields(list)) == distinct(names(list)),
    decreases list.len(),
{
    if list.len() > 0 {
        let init = list.drop_last();
        lemma_names_of_joined_fields(init);
        let before = joined_fields(init);
        assert(names(list).drop_last() =~= names(init));
        if names(before).contains(list.last().name) {
            assert(names(joined_fields(list)) =~= names(before));
        } else {
            assert(names(joined_fields(list)) =~= names(before).push(list.last().name));
        }
    } else {
        assert(names(joined_fields(list)) =~= distinct(names(list)));
    }
}

/// Fields that share no name are kept as they are.
pub proof fn lemma_unique_fields(list: Seq<FieldView>)
    requires
        names(list).no_duplicates(),
    ensures
        joinable(list),
        joined_fields(list) == list,
    decreases list.len(),
{
    assert forall|i: int, j: int|
        0 <= i < j < list.len() && (#[trigger] list[i]).name == (
        #[trigger] list[j]).name implies can_join(list[i], list[j]) by {
        assert(names(list)[i] != names(list)[j]);
    }
    if list.len() > 0 {
        let init = list.drop_last();
        assert(names(init) =~= names(list).drop_last());
        assert(names(init).no_duplicates());
        lemma_unique_fields(init);
        if names(init).contains(list.last().name) {
            let i = choose|i: int| 0 <= i < init.len() && names(init)[i] == list.last().name;
            assert(names(list)[i] == names(list)[list.len() - 1]);
        }
        assert(init.push(list.last()) =~= list);
    } else {
        assert(joined_fields(list) =~= list);
    }
}

/// The names of all fields are all columns.
pub proof fn lemma_names_of_all(parts: Seq<SchemaView>, lists: Seq<Seq<FieldView>>)
    requires
        parts.len() == lists.len(),
        forall|i: int| 0 <= i < parts.len() ==> (#[trigger] parts[i]).columns == names(lists[i]),
    ensures
        names(all_fields(lists)) == all_columns(parts),
    decreases parts.len(),
{
    if parts.len() > 0 {
        let init = parts.drop_last();
        let rest = lists.drop_last();
        assert forall|i: int| 0 <= i < init.len() implies (#[trigger] init[i]).columns == names(
            rest[i],
        ) by {
            assert(parts[i].columns == names(lists[i]));
        }
        lemma_names_of_all(init, rest);
        assert(parts[parts.len() - 1].columns == names(lists[lists.len() - 1]));
        assert(names(all_fields(lists)) =~= names(all_fields(rest)) + names(lists.last()));
    } else {
        assert(names(all_fields(lists)) =~= all_columns(parts));
    }
}

/// Schemas whose columns differ in name merge if their metadata is not at odds, and
/// all their fields are taken over, one schema after another.
pub proof fn law_different_columns_merge(
    parts: Seq<Arc<Schema>>,
    result: Result<Schema, ArrowError>,
)
    requires
        merges_to(shared_views(parts), shared_fields(parts), result),
        mergeable(shared_views(parts)),
    ensures
        result matches Ok(m) && fields(m) == all_fields(shared_fields(parts)),
{
    lemma_names_of_all(shared_views(parts), shared_fields(parts));
    lemma_unique_fields(all_fields(shared_fields(parts)));
}

/// Fields merge or clash, if those that share a name are plain: so schemas with such
/// fields merge exactly if no two of them clash and no metadata is at odds.
pub proof fn law_plain_fields_merge_or_clash(
    parts: Seq<Arc<Schema>>,
    result: Result<Schema, ArrowError>,
)
    requires
        merges_to(shared_views(parts), shared_fields(parts), result),
        shared_names_are_plain(all_fields(shared_fields(parts))),
    ensures
        result is Ok <==> !clashing(all_fields(shared_fields(parts))) && !metadata_conflict(
            shared_views(parts),
        ),
{
    let list = all_fields(shared_fields(parts));
    if !clashing(list) {
        assert forall|i: int, j: int|
            0 <= i < j < list.len() && (#[trigger] list[i]).name == (
            #[trigger] list[j]).name implies can_join(list[i], list[j]) by {
            assert(!clash(list[i], list[j]));
        }
    }
}

/// Leaving out what occurs again leaves every name in.
pub proof fn lemma_distinct_has(list: Seq<Seq<char>>, name: Seq<char>)
    requires
        list.contains(name),
    ensures
        distinct(list).contains(name),
    decreases list.len(),
{
    let init = list.drop_last();
    let at = choose|at: int| 0 <= at < list.len() && list[at] == name;
    let before = distinct(init);
    if at < init.len() {
        assert(init[at] == name);
        lemma_distinct_has(init, name);
        let b = choose|b: int| 0 <= b < before.len() && before[b] == name;
        assert(distinct(list)[b] == name);
    } else if !before.contains(name) {
        assert(distinct(list)[before.len() as int] == name);
    }
}

proof fn lemma_distinct_is_subset(list: Seq<Seq<char>>)
    ensures
        forall|i: int| 0 <= i < distinct(list).len() ==> list.contains(#[trigger] distinct(list)[i]),
    decreases list.len(),
{
    if list.len() > 0 {
        let init = list.drop_last();
        lemma_distinct_is_subset(init);
        assert forall|i: int| 0 <= i < distinct(list).len() implies list.contains(
            #[trigger] distinct(list)[i],
        ) by {
            if i < distinct(init).len() {
                assert(distinct(list)[i] == distinct(init)[i]);
                let j = choose|j: int| 0 <= j < init.len() && init[j] == distinct(init)[i];
                assert(list[j] == init[j]);
            } else {
                assert(list[list.len() - 1] == distinct(list)[i]);
            }
        }
    }
}

proof fn lemma_column_has_part(parts: Seq<SchemaView>, name: Seq<char>) -> (f: int)
    requires
        all_columns(parts).contains(name),
    ensures
        0 <= f < parts.len(),
        parts[f].columns.contains(name),
    decreases parts.len(),
{
    let init = parts.drop_last();
    let at = choose|at: int| 0 <= at < all_columns(parts).len() && all_columns(parts)[at] == name;
    if at < all_columns(init).len() {
        assert(all_columns(init)[at] == name);
        lemma_column_has_part(init, name)
    } else {
        assert(parts.last().columns[at - all_columns(init).len()] == name);
        parts.len() - 1
    }
}

/// Every column of a merger is a column of one of its parts.
pub proof fn lemma_merged_column_has_origin(parts: Seq<SchemaView>, c: int) -> (f: int)
    requires
        0 <= c < merged(parts).columns.len(),
    ensures
        0 <= f < parts.len(),
        parts[f].columns.contains(merged(parts).columns[c]),
{
    lemma_distinct_is_subset(all_columns(parts));
    lemma_column_has_part(parts, merged(parts).columns[c])
}

/// Names that occur once each are all kept, in order.
pub proof fn lemma_distinct_of_unique(list: Seq<Seq<char>>)
    requires
        list.no_duplicates(),
    ensures
        distinct(list) == list,
    decreases list.len(),
{
    if list.len() > 0 {
        let init = list.drop_last();
        assert(init.no_duplicates());
        lemma_distinct_of_unique(init);
        if init.contains(list.last()) {
            let i = choose|i: int| 0 <= i < init.len() && init[i] == list.last();
            assert(list[i] == list[list.len() - 1]);
        }
        assert(init.push(list.last()) =~= list);
    } else {
        assert(distinct(list) =~= list);
    }
}

/// The columns of two schemas, one after the other.
pub proof fn lemma_columns_of_two(a: SchemaView, b: SchemaView)
    ensures
        all_columns(seq![a, b]) == a.columns + b.columns,
        all_metadata(seq![a, b]) == a.metadata.union_prefer_right(b.metadata),
{
    reveal_with_fuel(all_columns, 3);
    reveal_with_fuel(all_metadata, 3);
    assert(seq![a, b].drop_last() =~= seq![a]);
    assert(seq![a].drop_last() =~= Seq::<SchemaView>::empty());
    assert(all_columns(seq![a]) =~= a.columns);
    assert(all_metadata(seq![a]) =~= a.metadata);
}

/// The fields of two schemas, one after the other.
pub proof fn lemma_fields_of_two(lists: Seq<Seq<FieldView>>)
    requires
        lists.len() == 2,
    ensures
        all_fields(lists) == lists[0] + lists[1],
{
    reveal_with_fuel(all_fields, 3);
    assert(lists.drop_last() =~= seq![lists[0]]);
    assert(seq![lists[0]].drop_last() =~= Seq::<Seq<FieldView>>::empty());
    assert(all_fields(lists) =~= lists[0] + lists[1]);
}

/// Two schemas without a common column and without conflicting metadata merge
/// to one that lists the columns of the first, then those of the second.
pub proof fn law_columns_sit_side_by_side(a: SchemaView, b: SchemaView)
    requires
        mergeable(seq![a, b]),
    ensures
        merged(seq![a, b]).columns == a.columns + b.columns,
{
    lemma_columns_of_two(a, b);
    lemma_distinct_of_unique(a.columns + b.columns);
}

/// A list is as long as its distinct names exactly if none occurs twice.
pub proof fn lemma_distinct_len(list: Seq<Seq<char>>)
    ensures
        distinct(list).len() <= list.len(),
        distinct(list).len() == list.len() <==> list.no_duplicates(),
        forall|i: int| 0 <= i < list.len() ==> distinct(list).contains(#[trigger] list[i]),
    decreases list.len(),
{
    if list.len() > 0 {
        let init = list.drop_last();
        let before = distinct(init);
        lemma_distinct_len(init);
        lemma_distinct_is_subset(init);
        assert forall|i: int| 0 <= i < list.len() implies distinct(list).contains(
            #[trigger] list[i],
        ) by {
            if i < init.len() {
                assert(before.contains(init[i]));
                let j = choose|j: int| 0 <= j < before.len() && before[j] == init[i];
                assert(distinct(list)[j] == list[i]);
            } else if !before.contains(list.last()) {
                assert(distinct(list)[before.len() as int] == list[i]);
            }
        }
        if list.no_duplicates() {
            assert(init.no_duplicates());
            if before.contains(list.last()) {
                let j = choose|j: int| 0 <= j < before.len() && before[j] == list.last();
                assert(init.contains(before[j]));
                let i = choose|i: int| 0 <= i < init.len() && init[i] == before[j];
                assert(list[i] == list[list.len() - 1]);
            }
        }
        if distinct(list).len() == list.len() {
            assert(!before.contains(list.last()));
            assert forall|i: int, j: int|
                0 <= i < list.len() && 0 <= j < list.len() && i != j implies list[i] != list[j] by {
                if i < init.len() && j < init.len() {
                    assert(init[i] != init[j]);
                } else if i < init.len() {
                    assert(before.contains(init[i]));
                } else {
                    assert(before.contains(init[j]));
                }
            }
        }
    }
}

/// A name that comes behind others is listed behind them, unless it is one of them.
pub proof fn law_names_are_listed_once(list: Seq<Seq<char>>, name: Seq<char>)
    ensures
        distinct(Seq::<Seq<char>>::empty()) == Seq::<Seq<char>>::empty(),
        list.contains(name) ==> distinct(list.push(name)) == distinct(list),
        !list.contains(name) ==> distinct(list.push(name)) == distinct(list).push(name),
{
    assert(list.push(name).drop_last() =~= list);
    lemma_distinct_is_subset(list);
    if list.contains(name) {
        lemma_distinct_has(list, name);
    } else if distinct(list).contains(name) {
        let i = choose|i: int| 0 <= i < distinct(list).len() && distinct(list)[i] == name;
        assert(list.contains(distinct(list)[i]));
    }
}

proof fn lemma_distinct_differ(list: Seq<Seq<char>>)
    ensures
        distinct(list).no_duplicates(),
    decreases list.len(),
{
    if list.len() > 0 {
        let before = distinct(list.drop_last());
        lemma_distinct_differ(list.drop_last());
        if !before.contains(list.last()) {
            let all = distinct(list);
            assert forall|i: int, j: int|
                0 <= i < all.len() && 0 <= j < all.len() && i != j implies all[i] != all[j] by {
                if i < before.len() && j < before.len() {
                    assert(before[i] != before[j]);
                } else if i < before.len() {
                    assert(before.contains(before[i]));
                } else {
                    assert(before.contains(before[j]));
                }
            }
        }
    }
}

proof fn lemma_part_has_column(parts: Seq<SchemaView>, f: int, name: Seq<char>)
    requires
        0 <= f < parts.len(),
        parts[f].columns.contains(name),
    ensures
        all_columns(parts).contains(name),
    decreases parts.len(),
{
    let init = parts.drop_last();
    let all = all_columns(parts);
    if f < init.len() {
        assert(init[f] == parts[f]);
        lemma_part_has_column(init, f, name);
        let at = choose|at: int| 0 <= at < all_columns(init).len() && all_columns(init)[at] == name;
        assert(all[at] == name);
    } else {
        let own = parts.last().columns;
        let at = choose|at: int| 0 <= at < own.len() && own[at] == name;
        assert(all[all_columns(init).len() + at] == name);
    }
}

/// A merger has a column exactly if one of its parts has, and has it once.
pub proof fn law_merger_has_the_columns_of_its_parts(parts: Seq<SchemaView>, name: Seq<char>)
    ensures
        merged(parts).columns.contains(name) <==> exists|f: int|
            0 <= f < parts.len() && (#[trigger] parts[f]).columns.contains(name),
        merged(parts).columns.no_duplicates(),
{
    lemma_distinct_differ(all_columns(parts));
    if merged(parts).columns.contains(name) {
        let c = choose|c: int|
            0 <= c < merged(parts).columns.len() && merged(parts).columns[c] == name;
        let f = lemma_merged_column_has_origin(parts, c);
        assert(parts[f].columns.contains(name));
    }
    if exists|f: int| 0 <= f < parts.len() && (#[trigger] parts[f]).columns.contains(name) {
        let f = choose|f: int| 0 <= f < parts.len() && (#[trigger] parts[f]).columns.contains(name);
        lemma_part_has_column(parts, f, name);
        lemma_distinct_has(all_columns(parts), name);
    }
}

/// The columns, the fields and the metadata of one more schema come behind those of the
/// others.
pub proof fn law_parts_come_one_after_another(
    parts: Seq<SchemaView>,
    part: SchemaView,
    lists: Seq<Seq<FieldView>>,
    list: Seq<FieldView>,
)
    ensures
        all_columns(parts.push(part)) == all_columns(parts) + part.columns,
        all_columns(Seq::<SchemaView>::empty()).len() == 0,
        all_fields(lists.push(list)) == all_fields(lists) + list,
        all_fields(Seq::<Seq<FieldView>>::empty()).len() == 0,
        forall|key: Seq<char>| #[trigger]
            all_metadata(parts.push(part)).contains_key(key) <==> all_metadata(parts).contains_key(
                key,
            ) || part.metadata.contains_key(key),
        forall|key: Seq<char>| #[trigger]
            part.metadata.contains_key(key) ==> all_metadata(parts.push(part))[key]
                == part.metadata[key],
{
    assert(parts.push(part).drop_last() =~= parts);
    assert(lists.push(list).drop_last() =~= lists);
}

/// Fields that share a name are joined where the first of them is: the result is nullable
/// if one of them is, and has the metadata of both; all else is that of the first.
pub proof fn law_joined_fields_take_in_the_later(a: FieldView, b: FieldView)
    ensures
        a.name != b.name ==> joined_fields(seq![a, b]) == seq![a, b],
        a.name == b.name ==> {
            let all = joined_fields(seq![a, b]);
            &&& all.len() == 1
            &&& all[0].name == a.name
            &&& all[0].data_type == a.data_type
            &&& all[0].tree == a.tree
            &&& all[0].ordered == a.ordered
            &&& all[0].nullable <==> a.nullable || b.nullable
            &&& forall|key: Seq<char>| #[trigger]
                all[0].metadata.contains_key(key) <==> a.metadata.contains_key(key)
                    || b.metadata.contains_key(key)
        },
{
    reveal_with_fuel(joined_fields, 3);
    assert(seq![a, b].drop_last() =~= seq![a]);
    assert(seq![a].drop_last() =~= Seq::<FieldView>::empty());
    assert(names(Seq::<FieldView>::empty()).len() == 0);
    assert(joined_fields(seq![a]) =~= seq![a]);
    assert(names(seq![a]) =~= seq![a.name]);
    assert(names(seq![a])[0] == a.name);
    if a.name != b.name {
        assert(!names(seq![a]).contains(b.name));
        assert(joined_fields(seq![a, b]) =~= seq![a, b]);
    } else {
        assert(names(seq![a]).contains(b.name));
    }
}

} // verus!
