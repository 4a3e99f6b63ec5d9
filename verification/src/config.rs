//! The benchmark suites.

use crate::text::{decimal, law_written_numbers_are_read_back, texts, to_decimal};
use vstd::prelude::*;
use vstd::string::*;

verus! {

/// A benchmark suite.
#[derive(Debug, Clone, Copy, PartialEq, Eq, Structural)]
pub enum Suite {
    Tpch,
    Tpcds,
}

/// A numbered query.
#[derive(Debug)]
pub struct Query {
    pub number: usize,
    pub sql: String,
}

/// What a run of a benchmark suite needs.
#[derive(Debug)]
pub struct BenchConfig {
    /// The name of the suite, for messages and file names.
    pub name: String,
    /// The directory that holds the parquet files.
    pub data_dir: String,
    /// The tables that the queries read.
    pub tables: Vec<String>,
    /// The queries, by number.
    pub queries: Vec<Query>,
}

/// The numbers and texts of queries.
pub open spec fn query_views(list: Seq<Query>) -> Seq<(usize, Seq<char>)> {
    list.map_values(|q: Query| (q.number, q.sql@))
}

impl Suite {
    /// The name of the suite.
    pub open spec fn title(self) -> Seq<char> {
        match self {
            Suite::Tpch => "tpch"@,
            Suite::Tpcds => "tpcds"@,
        }
    }

    /// The directory that holds the suite's parquet files.
    pub open spec fn data(self) -> Seq<char> {
        match self {
            Suite::Tpch => "data/tpch"@,
            Suite::Tpcds => "data/tpcds"@,
        }
    }

    /// The directory that holds the suite's queries.
    pub open spec fn directory(self) -> Seq<char> {
        match self {
            Suite::Tpch => "queries"@,
            Suite::Tpcds => "queries_tpcds"@,
        }
    }

    /// How many queries the suite has.
    pub open spec fn size(self) -> nat {
        match self {
            Suite::Tpch => 22,
            Suite::Tpcds => 99,
        }
    }

    /// The tables of the suite.
    pub open spec fn schema_tables(self) -> Seq<Seq<char>> {
        match self {
            Suite::Tpch => seq![
                "lineitem"@,
                "orders"@,
                "partsupp"@,
                "supplier"@,
                "nation"@,
                "region"@,
                "part"@,
                "customer"@,
            ],
            Suite::Tpcds => seq![
                "call_center"@,
                "catalog_page"@,
                "catalog_returns"@,
                "catalog_sales"@,
                "customer"@,
                "customer_address"@,
                "customer_demographics"@,
                "date_dim"@,
                "household_demographics"@,
                "income_band"@,
                "inventory"@,
                "item"@,
                "promotion"@,
                "reason"@,
                "ship_mode"@,
                "store"@,
                "store_returns"@,
                "store_sales"@,
                "time_dim"@,
                "warehouse"@,
                "web_page"@,
                "web_returns"@,
                "web_sales"@,
                "web_site"@,
            ],
        }
    }

    /// The name of the suite.
    pub fn name(&self) -> (name: String)
        ensures
            name@ == self.title(),
    {
        match self {
            Suite::Tpch => String::from_str("tpch"),
            Suite::Tpcds => String::from_str("tpcds"),
        }
    }

    /// The directory that holds the suite's queries.
    pub fn query_dir(&self) -> (dir: String)
        ensures
            dir@ == self.directory(),
    {
        match self {
            Suite::Tpch => String::from_str("queries"),
            Suite::Tpcds => String::from_str("queries_tpcds"),
        }
    }

    /// The numbers of the suite's queries.
    pub fn query_numbers(&self) -> (numbers: Vec<usize>)
        ensures
            numbers@ == Seq::new(self.size(), |i: int| (i + 1) as usize),
    {
        let last: usize = match self {
            Suite::Tpch => 22,
            Suite::Tpcds => 99,
        };
        let mut numbers: Vec<usize> = Vec::new();
        let mut n: usize = 0;
        while n < last
            invariant
                n <= last,
                last <= 99,
                numbers@ == Seq::new(n as nat, |i: int| (i + 1) as usize),
            decreases last - n,
        {
            n += 1;
            numbers.push(n);
        }
        numbers
    }

    /// The suite, with the queries that could be read.
    pub fn config(&self, queries: Vec<Query>) -> (config: BenchConfig)
        ensures
            config.name@ == self.title(),
            config.data_dir@ == self.data(),
            texts(config.tables@) == self.schema_tables(),
            config.queries == queries,
    {
        match self {
            Suite::Tpch => tpch_config(queries),
            Suite::Tpcds => tpcds_config(queries),
        }
    }
}

/// What some texts hold.
spec fn words(list: Seq<&str>) -> Seq<Seq<char>> {
    Seq::new(list.len(), |i: int| list[i]@)
}

/// Copies of some texts.
fn owned(list: Vec<&str>) -> (copies: Vec<String>)
    ensures
        texts(copies@) == words(list@),
{
    let mut copies: Vec<String> = Vec::new();
    for k in 0..list.len()
        invariant
            texts(copies@) == words(list@).take(k as int),
    {
        let ghost before = copies@;
        copies.push(String::from_str(list[k]));
        proof {
            assert(texts(copies@) =~= texts(before).push(list@[k as int]@));
            assert(texts(copies@) =~= words(list@).take(k + 1));
        }
    }
    proof {
        assert(words(list@).take(list@.len() as int) =~= words(list@));
    }
    copies
}

/// The TPC-H suite.
pub fn tpch_config(queries: Vec<Query>) -> (config: BenchConfig)
    ensures
        config.name@ == Suite::Tpch.title(),
        config.data_dir@ == Suite::Tpch.data(),
        texts(config.tables@) == Suite::Tpch.schema_tables(),
        config.queries == queries,
{
    let list: Vec<&str> = vec![
        "lineitem", "orders", "partsupp", "supplier", "nation", "region", "part", "customer",
    ];
    let tables: Vec<String> = owned(list);
    proof {
        assert(texts(tables@) =~= Suite::Tpch.schema_tables());
    }
    BenchConfig {
        name: String::from_str("tpch"),
        data_dir: String::from_str("data/tpch"),
        tables,
        queries,
    }
}

/// The TPC-DS suite.
pub fn tpcds_config(queries: Vec<Query>) -> (config: BenchConfig)
    ensures
        config.name@ == Suite::Tpcds.title(),
        config.data_dir@ == Suite::Tpcds.data(),
        texts(config.tables@) == Suite::Tpcds.schema_tables(),
        config.queries == queries,
{
    let list: Vec<&str> = vec![
        "call_center", "catalog_page", "catalog_returns", "catalog_sales", "customer",
        "customer_address", "customer_demographics", "date_dim", "household_demographics",
        "income_band", "inventory", "item", "promotion", "reason", "ship_mode", "store",
        "store_returns", "store_sales", "time_dim", "warehouse", "web_page", "web_returns",
        "web_sales", "web_site",
    ];
    let tables: Vec<String> = owned(list);
    proof {
        assert(texts(tables@) =~= Suite::Tpcds.schema_tables());
    }
    BenchConfig {
        name: String::from_str("tpcds"),
        data_dir: String::from_str("data/tpcds"),
        tables,
        queries,
    }
}

/// Where the query with a number is kept.
pub open spec fn query_file(dir: Seq<char>, number: nat) -> Seq<char> {
    dir + "/q"@ + decimal(number) + ".sql"@
}

/// Where the query with a number is kept.
pub fn query_path(dir: &str, number: usize) -> (path: String)
    ensures
        path@ == query_file(dir@, number as nat),
{
    let mut path: String = String::from_str(dir);
    path.append("/q");
    path.append(to_decimal(number as u128).as_str());
    path.append(".sql");
    path
}

/// What is said of a query that cannot be read.
pub fn missing_query(dir: &str, number: usize) -> (warning: String)
    ensures
        warning@ == "warning: missing query file "@ + query_file(dir@, number as nat)
            + ", skipping"@,
{
    let mut warning: String = String::from_str("warning: missing query file ");
    warning.append(query_path(dir, number).as_str());
    warning.append(", skipping");
    warning
}

/// The queries of which there is a text, with their numbers.
pub open spec fn found_queries(numbers: Seq<usize>, files: Seq<Option<String>>) -> Seq<
    (usize, Seq<char>),
>
    decreases numbers.len(),
{
    if numbers.len() == 0 || files.len() < numbers.len() {
        Seq::empty()
    } else {
        let front = found_queries(numbers.drop_last(), files.take(numbers.len() - 1));
        match files[numbers.len() - 1] {
            Some(sql) => front.push((numbers.last(), sql@)),
            None => front,
        }
    }
}

/// The queries that could be read. `files` holds, number by number, what the
/// file of the query held; a query without a file is passed over.
pub fn load_queries(numbers: &Vec<usize>, files: Vec<Option<String>>) -> (queries: Vec<Query>)
    requires
        files@.len() == numbers@.len(),
    ensures
        query_views(queries@) == found_queries(numbers@, files@),
{
    let mut queries: Vec<Query> = Vec::new();
    let mut k: usize = 0;
    let count: usize = numbers.len();
    for file in it: files
        invariant
            it.seq() == files@,
            count == numbers@.len(),
            k == it.index(),
            files@.len() == numbers@.len(),
            query_views(queries@) == found_queries(numbers@.take(k as int), files@.take(k as int)),
    {
        proof {
            assert(numbers@.take(k + 1).drop_last() =~= numbers@.take(k as int));
            assert(files@.take(k + 1).take(k as int) =~= files@.take(k as int));
        }
        if let Some(sql) = file {
            let ghost before = query_views(queries@);
            queries.push(Query { number: numbers[k], sql });
            proof {
                assert(query_views(queries@) =~= before.push((numbers@[k as int], sql@)));
            }
        }
        k += 1;
    }
    proof {
        assert(numbers@.take(k as int) =~= numbers@);
        assert(files@.take(k as int) =~= files@);
    }
    queries
}

/// The queries of some numbers and of some more are those of the former and then those of
/// the latter. A number has one query if there is a text, and none otherwise.
pub proof fn law_queries_are_found_number_by_number(
    numbers: Seq<usize>,
    files: Seq<Option<String>>,
    number: usize,
    file: Option<String>,
)
    requires
        numbers.len() == files.len(),
    ensures
        found_queries(Seq::empty(), Seq::empty()) == Seq::<(usize, Seq<char>)>::empty(),
        file is None ==> found_queries(numbers.push(number), files.push(file)) == found_queries(
            numbers,
            files,
        ),
        file matches Some(sql) ==> found_queries(numbers.push(number), files.push(file))
            == found_queries(numbers, files).push((number, sql@)),
{
    let all = numbers.push(number);
    let texts_read = files.push(file);
    assert(all.drop_last() =~= numbers);
    assert(texts_read.take(all.len() - 1) =~= files);
}

/// The queries of a suite are kept in different files.
pub proof fn law_queries_are_kept_apart(dir: Seq<char>, a: nat, b: nat)
    requires
        query_file(dir, a) == query_file(dir, b),
    ensures
        a == b,
{
    let front = dir + "/q"@;
    let one = query_file(dir, a);
    let other = query_file(dir, b);
    assert(one == front + decimal(a) + ".sql"@);
    assert(one.len() == front.len() + decimal(a).len() + ".sql"@.len());
    assert(other.len() == front.len() + decimal(b).len() + ".sql"@.len());
    assert(decimal(a) =~= decimal(b)) by {
        assert forall|i: int| 0 <= i < decimal(a).len() implies decimal(a)[i] == decimal(b)[i] by {
            assert(one[front.len() + i] == decimal(a)[i]);
            assert(other[front.len() + i] == decimal(b)[i]);
        }
    }
    let max = if a < b {
        b
    } else {
        a
    };
    law_written_numbers_are_read_back(a, max);
    law_written_numbers_are_read_back(b, max);
}

} // verus!
