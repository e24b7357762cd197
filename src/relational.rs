//! The relational artifact: the rows of the `pkgs` and `meta` tables built
//! from a rich package set, their CSV encoding for the bulk loader, and the
//! names and addresses that the build uses.
use vstd::prelude::*;
use crate::text::{push_char, views};

verus! {

/// The metadata of a package. Fields that hold JSON values in the release
/// document (homepage, download page, changelog, license, maintainers,
/// platforms, bad platforms) carry that JSON as text.
#[derive(Debug, Clone, PartialEq, Eq)]
pub struct MetaData {
    pub description: Option<String>,
    pub long_description: Option<String>,
    pub branch: Option<String>,
    pub homepage: Option<String>,
    pub download_page: Option<String>,
    pub changelog: Option<String>,
    pub license: Option<String>,
    pub maintainers: Option<String>,
    pub main_program: Option<String>,
    pub platforms: Option<String>,
    pub bad_platforms: Option<String>,
    pub broken: Option<bool>,
    pub unfree: Option<bool>,
    pub insecure: Option<bool>,
}

/// One package of a rich package set.
#[derive(Debug, PartialEq, Eq)]
pub struct Pkg {
    pub attribute: String,
    pub meta: MetaData,
    pub pname: String,
    pub version: String,
}

/// The CSV encodings of the two tables.
#[derive(Debug, PartialEq, Eq)]
pub struct TableData {
    pub pkgs_csv: Vec<u8>,
    pub meta_csv: Vec<u8>,
}

#[derive(Debug, PartialEq, Eq)]
pub enum BuildError {
    /// The CSV writer failed; its message.
    Csv(String),
}

/// Declares the CSV writer's error type.
#[verifier::external_type_specification]
#[verifier::external_body]
pub struct ExCsvError(csv::Error);

/// Every field of `m` is absent.
pub open spec fn meta_is_empty(m: MetaData) -> bool {
    &&& m.description is None
    &&& m.long_description is None
    &&& m.branch is None
    &&& m.homepage is None
    &&& m.download_page is None
    &&& m.changelog is None
    &&& m.license is None
    &&& m.maintainers is None
    &&& m.main_program is None
    &&& m.platforms is None
    &&& m.bad_platforms is None
    &&& m.broken is None
    &&& m.unfree is None
    &&& m.insecure is None
}

/// A text column: the value, or the empty string when it is absent.
pub open spec fn text_or_empty(o: Option<String>) -> Seq<char> {
    match o {
        Some(s) => s@,
        None => Seq::<char>::empty(),
    }
}

/// A flag column: `1` when set, `0` when unset or absent.
pub open spec fn flag_text(o: Option<bool>) -> Seq<char> {
    if o == Some(true) {
        seq!['1']
    } else {
        seq!['0']
    }
}

/// The row of `p` in the `pkgs` table.
pub open spec fn pkg_row(p: Pkg) -> Seq<Seq<char>> {
    seq![p.attribute@, p.pname@, p.version@]
}

/// The row of `p` in the `meta` table.
pub open spec fn meta_row(p: Pkg) -> Seq<Seq<char>> {
    seq![
        p.attribute@,
        text_or_empty(p.meta.description),
        text_or_empty(p.meta.long_description),
        text_or_empty(p.meta.branch),
        text_or_empty(p.meta.homepage),
        text_or_empty(p.meta.download_page),
        text_or_empty(p.meta.changelog),
        text_or_empty(p.meta.license),
        text_or_empty(p.meta.maintainers),
        text_or_empty(p.meta.main_program),
        text_or_empty(p.meta.platforms),
        text_or_empty(p.meta.bad_platforms),
        flag_text(p.meta.broken),
        flag_text(p.meta.unfree),
        flag_text(p.meta.insecure),
    ]
}

pub open spec fn rows_view(rows: Seq<Vec<String>>) -> Seq<Seq<Seq<char>>> {
    rows.map_values(|r: Vec<String>| views(r@))
}

/// The bytes that the CSV writer produces for these records, in its default
/// configuration.
pub uninterp spec fn csv_table(rows: Seq<Seq<Seq<char>>>) -> Seq<u8>;

/// All rows have the same number of fields.
pub open spec fn same_width(rows: Seq<Vec<String>>) -> bool {
    forall|i: int, j: int| 0 <= i < rows.len() && 0 <= j < rows.len() ==> rows[i]@.len() == rows[j]@.len()
}

/// Relies on `csv::Writer` (`from_writer`, `write_record`, `into_inner`):
/// writes each row as one record into a byte buffer. The bytes depend on the
/// fields alone. Writing into a `Vec` cannot fail on I/O, and a writer in its
/// default (not flexible) configuration refuses a record only when its field
/// count differs from the first record's.
#[verifier::external_body]
fn write_csv(rows: &Vec<Vec<String>>) -> (r: Result<Vec<u8>, csv::Error>)
    ensures
        r is Ok ==> r->Ok_0@ == csv_table(rows_view(rows@)),
        same_width(rows@) ==> r is Ok,
{
    let mut wtr = csv::Writer::from_writer(Vec::new());
    for row in rows {
        wtr.write_record(row)?;
    }
    wtr.into_inner().map_err(|e| csv::Error::from(e.into_error()))
}

/// Relies on `csv::Error`'s `Display`: the error's message.
#[verifier::external_body]
fn csv_error_text(e: &csv::Error) -> String {
    e.to_string()
}

impl MetaData {
    /// Metadata with every field absent.
    pub fn empty() -> (r: MetaData)
        ensures
            meta_is_empty(r),
    {
        MetaData {
            description: None,
            long_description: None,
            branch: None,
            homepage: None,
            download_page: None,
            changelog: None,
            license: None,
            maintainers: None,
            main_program: None,
            platforms: None,
            bad_platforms: None,
            broken: None,
            unfree: None,
            insecure: None,
        }
    }
}

/// A package as the release document describes it; a package without
/// metadata gets metadata with every field absent.
pub fn package_from_release(attribute: String, meta: Option<MetaData>, pname: String, version: String) -> (r: Pkg)
    ensures
        r.attribute == attribute,
        r.pname == pname,
        r.version == version,
        meta is Some ==> r.meta == meta->Some_0,
        meta is None ==> meta_is_empty(r.meta),
{
    let meta = match meta {
        Some(m) => m,
        None => MetaData::empty(),
    };
    Pkg { attribute, meta, pname, version }
}

fn text_column(o: &Option<String>) -> (r: String)
    ensures
        r@ == text_or_empty(*o),
{
    match o {
        Some(s) => s.clone(),
        None => String::new(),
    }
}

fn flag_column(o: Option<bool>) -> (r: String)
    ensures
        r@ == flag_text(o),
{
    let mut r = String::new();
    let digit = match o {
        Some(true) => '1',
        _ => '0',
    };
    push_char(&mut r, digit);
    assert(r@ =~= flag_text(o));
    r
}

fn pkg_row_of(p: &Pkg) -> (r: Vec<String>)
    ensures
        views(r@) == pkg_row(*p),
{
    let r = vec![p.attribute.clone(), p.pname.clone(), p.version.clone()];
    assert(views(r@) =~= pkg_row(*p));
    r
}

fn meta_row_of(p: &Pkg) -> (r: Vec<String>)
    ensures
        views(r@) == meta_row(*p),
{
    let m = &p.meta;
    let r = vec![
        p.attribute.clone(),
        text_column(&m.description),
        text_column(&m.long_description),
        text_column(&m.branch),
        text_column(&m.homepage),
        text_column(&m.download_page),
        text_column(&m.changelog),
        text_column(&m.license),
        text_column(&m.maintainers),
        text_column(&m.main_program),
        text_column(&m.platforms),
        text_column(&m.bad_platforms),
        flag_column(m.broken),
        flag_column(m.unfree),
        flag_column(m.insecure),
    ];
    assert(views(r@) =~= meta_row(*p));
    r
}

/// The rows of the `pkgs` table, one per package, in order.
pub fn pkg_rows(pkgs: &Vec<Pkg>) -> (r: Vec<Vec<String>>)
    ensures
        rows_view(r@) == pkgs@.map_values(|p: Pkg| pkg_row(p)),
{
    let mut r: Vec<Vec<String>> = Vec::new();
    let mut i: usize = 0;
    while i < pkgs.len()
        invariant
            i <= pkgs@.len(),
            rows_view(r@) == pkgs@.subrange(0, i as int).map_values(|p: Pkg| pkg_row(p)),
        decreases pkgs.len() - i,
    {
        let row = pkg_row_of(&pkgs[i]);
        let ghost before = r@;
        r.push(row);
        assert(rows_view(r@) =~= rows_view(before).push(views(row@)));
        assert(pkgs@.subrange(0, i + 1) =~= pkgs@.subrange(0, i as int).push(pkgs@[i as int]));
        assert(rows_view(r@) =~= pkgs@.subrange(0, i + 1).map_values(|p: Pkg| pkg_row(p)));
        i += 1;
    }
    assert(pkgs@.subrange(0, i as int) =~= pkgs@);
    r
}

/// The rows of the `meta` table, one per package, in order.
pub fn meta_rows(pkgs: &Vec<Pkg>) -> (r: Vec<Vec<String>>)
    ensures
        rows_view(r@) == pkgs@.map_values(|p: Pkg| meta_row(p)),
{
    let mut r: Vec<Vec<String>> = Vec::new();
    let mut i: usize = 0;
    while i < pkgs.len()
        invariant
            i <= pkgs@.len(),
            rows_view(r@) == pkgs@.subrange(0, i as int).map_values(|p: Pkg| meta_row(p)),
        decreases pkgs.len() - i,
    {
        let row = meta_row_of(&pkgs[i]);
        let ghost before = r@;
        r.push(row);
        assert(rows_view(r@) =~= rows_view(before).push(views(row@)));
        assert(pkgs@.subrange(0, i + 1) =~= pkgs@.subrange(0, i as int).push(pkgs@[i as int]));
        assert(rows_view(r@) =~= pkgs@.subrange(0, i + 1).map_values(|p: Pkg| meta_row(p)));
        i += 1;
    }
    assert(pkgs@.subrange(0, i as int) =~= pkgs@);
    r
}

/// The CSV encoding of `rows`, for the bulk loader.
pub fn table_csv(rows: &Vec<Vec<String>>) -> (r: Result<Vec<u8>, BuildError>)
    ensures
        r is Ok ==> r->Ok_0@ == csv_table(rows_view(rows@)),
        same_width(rows@) ==> r is Ok,
{
    match write_csv(rows) {
        Ok(bytes) => Ok(bytes),
        Err(e) => Err(BuildError::Csv(csv_error_text(&e))),
    }
}

/// The CSV streams that load the two tables: one `pkgs` row and one `meta` row
/// for each package, in the packages' order. Every `pkgs` row has 3 fields
/// and every `meta` row 15, so the encoding always succeeds.
pub fn build_tables(pkgs: &Vec<Pkg>) -> (r: Result<TableData, BuildError>)
    ensures
        r is Ok,
        r is Ok ==> r->Ok_0.pkgs_csv@ == csv_table(pkgs@.map_values(|p: Pkg| pkg_row(p))),
        r is Ok ==> r->Ok_0.meta_csv@ == csv_table(pkgs@.map_values(|p: Pkg| meta_row(p))),
{
    let prows = pkg_rows(pkgs);
    proof {
        lemma_rows_width(prows@, pkgs@.map_values(|p: Pkg| pkg_row(p)), 3);
    }
    let pkgs_csv = table_csv(&prows)?;
    let mrows = meta_rows(pkgs);
    proof {
        lemma_rows_width(mrows@, pkgs@.map_values(|p: Pkg| meta_row(p)), 15);
    }
    let meta_csv = table_csv(&mrows)?;
    Ok(TableData { pkgs_csv, meta_csv })
}

proof fn lemma_rows_width(rows: Seq<Vec<String>>, model: Seq<Seq<Seq<char>>>, width: int)
    requires
        rows_view(rows) == model,
        forall|i: int| 0 <= i < model.len() ==> (#[trigger] model[i]).len() == width,
    ensures
        same_width(rows),
{
    assert forall|i: int| 0 <= i < rows.len() implies (#[trigger] rows[i])@.len() == width by {
        assert(model[i] == views(rows[i]@));
    }
}

/// The two tables get one row per package, so as many rows as there are
/// attribute names when the names are distinct.
pub proof fn lemma_row_counts(pkgs: Seq<Pkg>)
    requires
        forall|i: int, j: int|
            0 <= i < j < pkgs.len() ==> (#[trigger] pkgs[i]).attribute@ != (#[trigger] pkgs[j]).attribute@,
    ensures
        pkgs.map_values(|p: Pkg| pkg_row(p)).len() == pkgs.map_values(|p: Pkg| meta_row(p)).len(),
        pkgs.map_values(|p: Pkg| pkg_row(p)).len() == pkgs.map_values(|p: Pkg| p.attribute@).to_set().len(),
{
    let names = pkgs.map_values(|p: Pkg| p.attribute@);
    assert(names.no_duplicates()) by {
        assert forall|i: int, j: int| 0 <= i < names.len() && 0 <= j < names.len() && i != j implies names[i]
            != names[j] by {
            if i < j {
                assert(pkgs[i].attribute@ != pkgs[j].attribute@);
            } else {
                assert(pkgs[j].attribute@ != pkgs[i].attribute@);
            }
        }
    }
    names.unique_seq_to_set();
}

/// Reading the `pkgs` rows back as (attribute, pname, version) triples gives
/// the triples of the packages, as sets.
pub proof fn lemma_pkg_rows_round_trip(pkgs: Seq<Pkg>, rows: Seq<Vec<String>>)
    requires
        rows_view(rows) == pkgs.map_values(|p: Pkg| pkg_row(p)),
    ensures
        rows_view(rows).map_values(|r: Seq<Seq<char>>| (r[0], r[1], r[2])).to_set() == pkgs.map_values(
            |p: Pkg| (p.attribute@, p.pname@, p.version@),
        ).to_set(),
{
    assert(rows_view(rows).map_values(|r: Seq<Seq<char>>| (r[0], r[1], r[2])) =~= pkgs.map_values(
        |p: Pkg| (p.attribute@, p.pname@, p.version@),
    ));
}

/// The address of a revision's package document.
pub open spec fn packages_url(channel: Seq<char>, rev: Seq<char>) -> Seq<char> {
    "https://releases.nixos.org/"@ + channel + "/"@ + rev + "/packages.json.br"@
}

/// The address of a revision's canonical git revision.
pub open spec fn git_revision_url(channel: Seq<char>, rev: Seq<char>) -> Seq<char> {
    "https://releases.nixos.org/"@ + channel + "/"@ + rev + "/git-revision"@
}

pub fn packages_url_of(channel: &str, rev: &str) -> (r: String)
    ensures
        r@ == packages_url(channel@, rev@),
{
    let mut r = String::from_str("https://releases.nixos.org/");
    r.append(channel);
    r.append("/");
    r.append(rev);
    r.append("/packages.json.br");
    r
}

pub fn git_revision_url_of(channel: &str, rev: &str) -> (r: String)
    ensures
        r@ == git_revision_url(channel@, rev@),
{
    let mut r = String::from_str("https://releases.nixos.org/");
    r.append(channel);
    r.append("/");
    r.append(rev);
    r.append("/git-revision");
    r
}

/// The database file named after the canonical git revision.
pub fn db_file_name(git_rev: &str) -> (r: String)
    ensures
        r@ == git_rev@ + ".db"@,
{
    let mut r = String::from_str(git_rev);
    r.append(".db");
    r
}

/// The compressed database file named after the canonical git revision.
pub fn compressed_file_name(git_rev: &str) -> (r: String)
    ensures
        r@ == git_rev@ + ".db.br"@,
{
    let mut r = String::from_str(git_rev);
    r.append(".db.br");
    r
}

/// The loader command that imports CSV from standard input into `table`.
pub fn import_command(table: &str) -> (r: String)
    ensures
        r@ == ".import '|cat -' "@ + table@,
{
    let mut r = String::from_str(".import '|cat -' ");
    r.append(table);
    r
}

} // verus!
