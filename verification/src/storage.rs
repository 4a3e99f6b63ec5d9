//! Where parquet files are kept.

use crate::config::BenchConfig;
use crate::text::{decimal, same_text};
use datafusion::error::DataFusionError;
use datafusion::execution::object_store::ObjectStoreUrl;
use object_store::path::Path as ObjPath;
use vstd::prelude::*;
use vstd::string::*;

verus! {

/// An error of the query engine. Opaque.
#[verifier::external_type_specification]
#[verifier::external_body]
pub struct ExDataFusionError(DataFusionError);

/// The location that an object store gives a path.
pub uninterp spec fn object_location(path: Seq<char>) -> Seq<char>;

/// `object_store::path::Path::from`, as text.
#[verifier::external_body]
pub(crate) fn object_path(path: String) -> (location: String)
    ensures
        location@ == object_location(path@),
{
    ObjPath::from(path).into()
}

/// The address of an object store, as it is written out; `None` if the text is
/// not one.
pub uninterp spec fn store_url(text: Seq<char>) -> Option<Seq<char>>;

/// `ObjectStoreUrl::parse`, as text: the address in the form that
/// `ObjectStoreUrl::as_str` gives, or the error.
#[verifier::external_body]
pub(crate) fn parse_url(text: &str) -> (url: Result<String, DataFusionError>)
    ensures
        url is Ok <==> store_url(text@) is Some,
        url matches Ok(u) ==> store_url(text@) == Some(u@),
{
    ObjectStoreUrl::parse(text).map(|url| url.as_str().to_string())
}

/// The settings that are read from the environment; `None` if not set.
#[derive(Debug)]
pub struct Environment {
    pub storage: Option<String>,
    pub s3_endpoint: Option<String>,
    pub s3_bucket: Option<String>,
    pub s3_access_key: Option<String>,
    pub s3_secret_key: Option<String>,
}

/// How an S3-compatible store is reached.
#[derive(Debug)]
pub struct S3Settings {
    pub endpoint: String,
    pub bucket: String,
    pub region: String,
    pub access_key: String,
    pub secret_key: String,
    pub allow_http: bool,
}

/// The store that holds the files.
#[derive(Debug)]
pub enum Backend {
    S3(S3Settings),
    Local,
}

/// What is set, or else the default.
pub open spec fn set_or(value: Option<String>, default: Seq<char>) -> Seq<char> {
    match value {
        Some(text) => text@,
        None => default,
    }
}

/// What is set, or else the default.
fn value_or(value: Option<String>, default: &str) -> (text: String)
    ensures
        text@ == set_or(value, default@),
{
    match value {
        Some(text) => text,
        None => String::from_str(default),
    }
}

/// The environment asks for S3.
pub open spec fn asks_for_s3(storage: Option<String>) -> bool {
    storage matches Some(kind) && kind@ == "s3"@
}

impl Backend {
    /// The store that the environment asks for: S3 if `storage` says so, with
    /// the defaults of a local MinIO where nothing is set, else local files.
    pub fn from_env(env: Environment) -> (backend: Backend)
        ensures
            backend is S3 <==> asks_for_s3(env.storage),
            backend matches Backend::S3(settings) ==> {
                &&& settings.endpoint@ == set_or(env.s3_endpoint, "http://127.0.0.1:9000"@)
                &&& settings.bucket@ == set_or(env.s3_bucket, "bench"@)
                &&& settings.region@ == "us-east-1"@
                &&& settings.access_key@ == set_or(env.s3_access_key, "minioadmin"@)
                &&& settings.secret_key@ == set_or(env.s3_secret_key, "minioadmin"@)
                &&& settings.allow_http
            },
    {
        let s3: bool = match &env.storage {
            Some(kind) => same_text(kind.as_str(), "s3"),
            None => false,
        };
        if !s3 {
            return Backend::Local;
        }
        Backend::S3(
            S3Settings {
                endpoint: value_or(env.s3_endpoint, "http://127.0.0.1:9000"),
                bucket: value_or(env.s3_bucket, "bench"),
                region: String::from_str("us-east-1"),
                access_key: value_or(env.s3_access_key, "minioadmin"),
                secret_key: value_or(env.s3_secret_key, "minioadmin"),
                allow_http: true,
            },
        )
    }

    /// The address of the store, as it is asked for.
    pub open spec fn address(self) -> Seq<char> {
        match self {
            Backend::S3(settings) => "s3://"@ + settings.bucket@,
            Backend::Local => "file://"@,
        }
    }
}

/// A store that is in use.
#[derive(Debug)]
pub struct Storage {
    pub url: String,
    pub s3: bool,
    pub bucket: String,
}

/// Why a store cannot be used.
#[derive(Debug)]
pub enum StorageError {
    /// Its address is not one.
    Url(DataFusionError),
}

/// A file of a benchmark suite, as the object store is asked for it.
#[derive(Debug)]
pub enum ObjectKey {
    /// A path within the store, as it was put together, and the location that the
    /// store gives it.
    Location { path: String, location: String },
    /// A path in the local file system, which is still to be made absolute.
    LocalFile(String),
}

/// What a key holds.
pub enum KeyView {
    Location { path: Seq<char>, location: Seq<char> },
    LocalFile(Seq<char>),
}

impl View for ObjectKey {
    type V = KeyView;

    open spec fn view(&self) -> KeyView {
        match self {
            ObjectKey::Location { path, location } => KeyView::Location {
                path: path@,
                location: location@,
            },
            ObjectKey::LocalFile(path) => KeyView::LocalFile(path@),
        }
    }
}

/// What some keys hold.
pub open spec fn key_views(list: Seq<ObjectKey>) -> Seq<KeyView> {
    list.map_values(|k: ObjectKey| k@)
}

impl Storage {
    /// Puts a store to use.
    pub fn open(backend: &Backend) -> (storage: Result<Storage, StorageError>)
        ensures
            storage is Ok <==> store_url(backend.address()) is Some,
            storage matches Ok(s) ==> {
                &&& store_url(backend.address()) == Some(s.url@)
                &&& s.s3 == (backend is S3)
                &&& s.bucket@ == match backend {
                    Backend::S3(settings) => settings.bucket@,
                    Backend::Local => Seq::<char>::empty(),
                }
            },
    {
        match backend {
            Backend::S3(settings) => {
                let mut address: String = String::from_str("s3://");
                address.append(settings.bucket.as_str());
                Storage::at(address.as_str(), true, String::from_str(settings.bucket.as_str()))
            },
            Backend::Local => Storage::at("file://", false, String::new()),
        }
    }

    /// The store at an address.
    fn at(address: &str, s3: bool, bucket: String) -> (storage: Result<Storage, StorageError>)
        ensures
            storage is Ok <==> store_url(address@) is Some,
            storage matches Ok(s) ==> store_url(address@) == Some(s.url@) && s.s3 == s3
                && s.bucket == bucket,
    {
        match parse_url(address) {
            Ok(url) => Ok(Storage { url, s3, bucket }),
            Err(e) => Err(StorageError::Url(e)),
        }
    }

    /// What the store is called.
    pub open spec fn label(self) -> Seq<char> {
        if self.s3 {
            "s3"@
        } else {
            "local"@
        }
    }

    /// What the store is called, in messages and file names.
    pub fn backend(&self) -> (label: String)
        ensures
            label@ == self.label(),
    {
        if self.s3 {
            String::from_str("s3")
        } else {
            String::from_str("local")
        }
    }

    /// Where the one file is that holds all columns of a table.
    pub open spec fn control(self, config: BenchConfig, table: Seq<char>) -> Seq<char> {
        if self.s3 {
            "s3://"@ + self.bucket@ + "/"@ + config.name@ + "/"@ + table + "_a0.parquet"@
        } else {
            config.data_dir@ + "/"@ + table + "_a0.parquet"@
        }
    }

    /// Where the one file is that holds all columns of a table.
    pub fn control_source(&self, config: &BenchConfig, table: &str) -> (source: String)
        ensures
            source@ == self.control(*config, table@),
    {
        let mut source: String = if self.s3 {
            let mut root: String = String::from_str("s3://");
            root.append(self.bucket.as_str());
            root.append("/");
            root.append(config.name.as_str());
            root
        } else {
            String::from_str(config.data_dir.as_str())
        };
        source.append("/");
        source.append(table);
        source.append("_a0.parquet");
        source
    }

    /// The key of a file.
    pub open spec fn key_of(self, config: BenchConfig, filename: Seq<char>) -> KeyView {
        if self.s3 {
            KeyView::Location {
                path: config.name@ + "/"@ + filename,
                location: object_location(config.name@ + "/"@ + filename),
            }
        } else {
            KeyView::LocalFile(config.data_dir@ + "/"@ + filename)
        }
    }

    /// The key of a file.
    pub fn key(&self, config: &BenchConfig, filename: &str) -> (key: ObjectKey)
        ensures
            key@ == self.key_of(*config, filename@),
    {
        let mut path: String = if self.s3 {
            String::from_str(config.name.as_str())
        } else {
            String::from_str(config.data_dir.as_str())
        };
        path.append("/");
        path.append(filename);
        if self.s3 {
            let location: String = object_path(path.clone());
            ObjectKey::Location { path, location }
        } else {
            ObjectKey::LocalFile(path)
        }
    }
}

/// How the columns of a table are spread over files.
#[derive(Debug, Clone, Copy, PartialEq, Eq, Structural)]
pub enum Variant {
    /// The control: all columns in one file, read by the engine's own reader.
    A,
    /// Two files, stitched together.
    B,
    /// Three files, stitched together.
    C,
}

/// All variants, in the order in which they are measured.
pub fn variants() -> (list: Vec<Variant>)
    ensures
        list@ == seq![Variant::A, Variant::B, Variant::C],
{
    let list: Vec<Variant> = vec![Variant::A, Variant::B, Variant::C];
    proof {
        assert(list@ =~= seq![Variant::A, Variant::B, Variant::C]);
    }
    list
}

/// The variant with a letter.
pub open spec fn variant_named(letter: Seq<char>) -> Option<Variant> {
    if letter == "a"@ {
        Some(Variant::A)
    } else if letter == "b"@ {
        Some(Variant::B)
    } else if letter == "c"@ {
        Some(Variant::C)
    } else {
        None
    }
}

impl Variant {
    /// The letter of the variant.
    pub open spec fn letter(self) -> Seq<char> {
        match self {
            Variant::A => "a"@,
            Variant::B => "b"@,
            Variant::C => "c"@,
        }
    }

    /// The ends of the names of a table's files.
    pub open spec fn endings(self) -> Seq<Seq<char>> {
        match self {
            Variant::A => seq!["_a0.parquet"@],
            Variant::B => seq!["_b0.parquet"@, "_b1.parquet"@],
            Variant::C => seq!["_c0.parquet"@, "_c1.parquet"@, "_c2.parquet"@],
        }
    }

    /// The letter of the variant.
    pub fn name(&self) -> (name: String)
        ensures
            name@ == self.letter(),
    {
        match self {
            Variant::A => String::from_str("a"),
            Variant::B => String::from_str("b"),
            Variant::C => String::from_str("c"),
        }
    }

    /// The variant with a letter.
    pub fn parse(text: &str) -> (variant: Option<Variant>)
        ensures
            variant == variant_named(text@),
    {
        if same_text(text, "a") {
            Some(Variant::A)
        } else if same_text(text, "b") {
            Some(Variant::B)
        } else if same_text(text, "c") {
            Some(Variant::C)
        } else {
            None
        }
    }
}

/// The letter of a variant names it.
pub proof fn law_letters_name_variants(variant: Variant)
    ensures
        variant_named(variant.letter()) == Some(variant),
{
    reveal_strlit("a");
    reveal_strlit("b");
    reveal_strlit("c");
    assert("a"@[0] == 'a');
    assert("b"@[0] == 'b');
    assert("c"@[0] == 'c');
}

/// What a table is read from.
#[derive(Debug)]
pub enum TableSource {
    /// One file, handed to the engine's own reader.
    Control(String),
    /// Files that are stitched together.
    Zipped(Vec<ObjectKey>),
}

impl Storage {
    /// The keys of the files that a table is stitched together from.
    pub open spec fn keys_of(self, config: BenchConfig, table: Seq<char>, variant: Variant) -> Seq<
        KeyView,
    > {
        variant.endings().map_values(|e: Seq<char>| self.key_of(config, table + e))
    }

    /// The key of one of a table's files.
    fn part(&self, config: &BenchConfig, table: &str, ending: &str) -> (key: ObjectKey)
        ensures
            key@ == self.key_of(*config, table@ + ending@),
    {
        let mut filename: String = String::from_str(table);
        filename.append(ending);
        self.key(config, filename.as_str())
    }

    /// The key of the one file that holds all columns of a table.
    pub fn control_key(&self, config: &BenchConfig, table: &str) -> (key: ObjectKey)
        ensures
            key@ == self.key_of(*config, table@ + "_a0.parquet"@),
    {
        self.part(config, table, "_a0.parquet")
    }

    /// What a table is read from in a variant.
    pub fn register_variant(&self, config: &BenchConfig, table: &str, variant: Variant) -> (source:
        TableSource)
        ensures
            match source {
                TableSource::Control(path) => variant is A && path@ == self.control(*config, table@),
                TableSource::Zipped(keys) => !(variant is A) && key_views(keys@) == self.keys_of(
                    *config,
                    table@,
                    variant,
                ),
            },
    {
        let mut keys: Vec<ObjectKey> = Vec::new();
        match variant {
            Variant::A => {
                return TableSource::Control(self.control_source(config, table));
            },
            Variant::B => {
                keys.push(self.part(config, table, "_b0.parquet"));
                keys.push(self.part(config, table, "_b1.parquet"));
            },
            Variant::C => {
                keys.push(self.part(config, table, "_c0.parquet"));
                keys.push(self.part(config, table, "_c1.parquet"));
                keys.push(self.part(config, table, "_c2.parquet"));
            },
        }
        proof {
            assert(key_views(keys@) =~= self.keys_of(*config, table@, variant));
        }
        TableSource::Zipped(keys)
    }
}

/// Different files have different keys.
pub proof fn law_files_have_their_own_keys(
    storage: Storage,
    config: BenchConfig,
    a: Seq<char>,
    b: Seq<char>,
)
    requires
        storage.key_of(config, a) == storage.key_of(config, b),
    ensures
        a == b,
{
    let root = if storage.s3 {
        config.name@ + "/"@
    } else {
        config.data_dir@ + "/"@
    };
    assert(root + a == root + b) by {
        match storage.key_of(config, a) {
            KeyView::Location { path, .. } => {},
            KeyView::LocalFile(path) => {},
        }
    }
    assert((root + a).skip(root.len() as int) =~= a);
    assert((root + b).skip(root.len() as int) =~= b);
}

/// Where the one file is that holds all columns of a table agrees with the key of that
/// file: a local file is at its path, and one in a bucket is at its path within it.
pub proof fn law_control_is_at_its_key(storage: Storage, config: BenchConfig, table: Seq<char>)
    ensures
        match storage.key_of(config, table + "_a0.parquet"@) {
            KeyView::LocalFile(path) => !storage.s3 && storage.control(config, table) == path,
            KeyView::Location { path, location } => {
                &&& storage.s3
                &&& storage.control(config, table) == "s3://"@ + storage.bucket@ + "/"@ + path
                &&& location == object_location(path)
            },
        },
{
    if storage.s3 {
        assert(storage.control(config, table) =~= "s3://"@ + storage.bucket@ + "/"@ + (
        config.name@ + "/"@ + (table + "_a0.parquet"@)));
    } else {
        assert(storage.control(config, table) =~= config.data_dir@ + "/"@ + (table
            + "_a0.parquet"@));
    }
}

/// A table of a variant has one file, two or three; their names begin with that of the
/// table, and their keys are in the order of the files.
pub proof fn law_variants_have_their_files(
    storage: Storage,
    config: BenchConfig,
    table: Seq<char>,
    variant: Variant,
    i: int,
)
    requires
        0 <= i < storage.keys_of(config, table, variant).len(),
    ensures
        storage.keys_of(config, table, variant).len() == match variant {
            Variant::A => 1nat,
            Variant::B => 2,
            Variant::C => 3,
        },
        storage.keys_of(config, table, variant)[i] == storage.key_of(
            config,
            table + "_"@ + variant.letter() + decimal(i as nat) + ".parquet"@,
        ),
{
    reveal_with_fuel(decimal, 2);
    reveal_strlit("_");
    reveal_strlit("a");
    reveal_strlit("b");
    reveal_strlit("c");
    reveal_strlit(".parquet");
    reveal_strlit("_a0.parquet");
    reveal_strlit("_b0.parquet");
    reveal_strlit("_b1.parquet");
    reveal_strlit("_c0.parquet");
    reveal_strlit("_c1.parquet");
    reveal_strlit("_c2.parquet");
    let name = table + "_"@ + variant.letter() + decimal(i as nat) + ".parquet"@;
    assert(name =~= table + variant.endings()[i]);
}

/// What is set goes before the default.
pub proof fn law_what_is_set_is_used(value: Option<String>, default: Seq<char>)
    ensures
        value matches Some(text) ==> set_or(value, default) == text@,
        value is None ==> set_or(value, default) == default,
{
}

/// Only the letters of variants name one.
pub proof fn law_only_letters_name_variants(letter: Seq<char>)
    ensures
        variant_named(letter) matches Some(variant) ==> letter == variant.letter(),
        (forall|variant: Variant| letter != #[trigger] variant.letter()) ==> variant_named(
            letter,
        ) is None,
{
    if variant_named(letter) is Some {
        assert(letter == (variant_named(letter)->0).letter());
    }
}

} // verus!
