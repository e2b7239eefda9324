use vstd::prelude::*;

verus! {

use vstd::string::StrSliceExecFns;
use vstd::string::StringExecFns;
use crate::strutil::ends_with;
use crate::strutil::has_prefix;
use crate::strutil::has_suffix;
use crate::strutil::starts_with;
use crate::strutil::str_eq;
use crate::strutil::substr;
use crate::urlencode::urlencode;
use crate::urlencode::urlencode_spec;
use crate::load::Invocation;

/// Where the package manager sourced a package: its central public registry,
/// or anywhere else.
#[derive(Clone, Copy, PartialEq, Eq, Structural, Debug)]
pub enum Source {
    Unknown,
    CratesIo,
}

/// What kind of source forge a repository URL points at; only GitHub gets
/// compare links.
#[derive(Clone, Copy, PartialEq, Eq, Structural, Debug)]
pub enum RepoKind {
    Unknown,
    Github,
}

/// The canonical source string of the central public registry.
pub open spec fn crates_io_marker() -> Seq<char> {
    "registry+https://github.com/rust-lang/crates.io-index"@
}

/// The URL prefix that classifies a repository as GitHub.
pub open spec fn github_prefix() -> Seq<char> {
    "https://github.com/"@
}

/// The source kind of a source string: the registry exactly for the
/// canonical marker.
pub open spec fn source_of(s: Seq<char>) -> Source {
    if s == crates_io_marker() {
        Source::CratesIo
    } else {
        Source::Unknown
    }
}

/// The repository kind of a URL: GitHub exactly for URLs under the GitHub
/// prefix.
pub open spec fn repo_kind_of(url: Seq<char>) -> RepoKind {
    if has_prefix(url, github_prefix()) {
        RepoKind::Github
    } else {
        RepoKind::Unknown
    }
}

/// A repository URL with its forge classification.
#[derive(Debug)]
pub struct Repo {
    pub kind: RepoKind,
    pub url: String,
}

impl Repo {
    /// Classifies a repository URL.
    pub fn new(url: String) -> (r: Repo)
        ensures
            r.url@ == url@,
            r.kind == repo_kind_of(url@),
    {
        let kind = if starts_with(url.as_str(), "https://github.com/") {
            RepoKind::Github
        } else {
            RepoKind::Unknown
        };
        Repo { kind, url }
    }

    /// Whether no repository URL is known.
    pub fn is_empty(&self) -> (r: bool)
        ensures
            r == (self.url@.len() == 0),
    {
        self.url.as_str().is_empty()
    }
}

/// What the enricher knows of one package: its name, whether it came from
/// the central registry, and its repository URL with the forge kind.
#[derive(Debug)]
pub struct Entry {
    pub name: String,
    pub source: Source,
    pub repo: Repo,
}

/// Mathematical model of an enrichment entry.
pub struct EntryModel {
    pub name: Seq<char>,
    pub source: Source,
    pub repo_kind: RepoKind,
    pub repo_url: Seq<char>,
}

impl View for Entry {
    type V = EntryModel;

    open spec fn view(&self) -> EntryModel {
        EntryModel {
            name: self.name@,
            source: self.source,
            repo_kind: self.repo.kind,
            repo_url: self.repo.url@,
        }
    }
}

/// The text of an optional string; absent means empty.
pub open spec fn opt_text(o: Option<Seq<char>>) -> Seq<char> {
    match o {
        Some(s) => s,
        None => Seq::empty(),
    }
}

/// The entry's kinds are the classifications of the strings it was built
/// from.
pub open spec fn entry_wf(e: EntryModel) -> bool {
    e.repo_kind == repo_kind_of(e.repo_url)
}

/// The registry or repository page for an entry: the registry's package page
/// when the package came from the central registry, else its repository URL
/// when one is known.
pub open spec fn link_of(e: EntryModel) -> Option<Seq<char>> {
    if e.source == Source::CratesIo {
        Some("https://crates.io/crates/"@ + e.name)
    } else if e.repo_url.len() > 0 {
        Some(e.repo_url)
    } else {
        None
    }
}

/// A repository URL with one trailing `.git` stripped.
pub open spec fn strip_git_suffix(url: Seq<char>) -> Seq<char> {
    if has_suffix(url, ".git"@) {
        url.subrange(0, url.len() - 4)
    } else {
        url
    }
}

/// The forge compare URL for two refs: only GitHub repositories get one,
/// `<repo-without-.git>/compare/<enc(from)>...<enc(to)>` with both refs
/// percent-encoded.
pub open spec fn compare_url_of(e: EntryModel, from: Seq<char>, to: Seq<char>) -> Option<
    Seq<char>,
> {
    match e.repo_kind {
        RepoKind::Unknown => None,
        RepoKind::Github => Some(
            strip_git_suffix(e.repo_url) + "/compare/"@ + urlencode_spec(from) + "..."@
                + urlencode_spec(to),
        ),
    }
}

impl Entry {
    /// Builds the entry for a package from the metadata document's fields:
    /// an absent source or repository counts as empty.
    pub fn new(name: String, source: Option<String>, repository: Option<String>) -> (e: Entry)
        ensures
            e@.name == name@,
            e@.source == source_of(
                opt_text(
                    match source {
                        Some(s) => Some(s@),
                        None => None,
                    },
                ),
            ),
            e@.repo_url == opt_text(
                match repository {
                    Some(s) => Some(s@),
                    None => None,
                },
            ),
            e@.repo_kind == repo_kind_of(e@.repo_url),
            entry_wf(e@),
    {
        let source_str = match source {
            Some(s) => s,
            None => String::new(),
        };
        let src = if str_eq(source_str.as_str(), "registry+https://github.com/rust-lang/crates.io-index") {
            Source::CratesIo
        } else {
            Source::Unknown
        };
        let repo_url = match repository {
            Some(s) => s,
            None => String::new(),
        };
        Entry { name, source: src, repo: Repo::new(repo_url) }
    }

    /// The registry or repository page for the package, when one is known.
    pub fn link(&self) -> (r: Option<String>)
        ensures
            (match r {
                Some(s) => link_of(self@) == Some(s@),
                None => link_of(self@) is None,
            }),
    {
        match self.source {
            Source::CratesIo => {
                let mut s = String::from_str("https://crates.io/crates/");
                s.append(self.name.as_str());
                Some(s)
            },
            Source::Unknown => {
                if !self.repo.is_empty() {
                    Some(self.repo.url.clone())
                } else {
                    None
                }
            },
        }
    }

    /// The GitHub compare URL between two refs, when the repository is on
    /// GitHub.
    pub fn compare_url(&self, from: &str, to: &str) -> (r: Option<String>)
        ensures
            (match r {
                Some(s) => compare_url_of(self@, from@, to@) == Some(s@),
                None => compare_url_of(self@, from@, to@) is None,
            }),
    {
        match self.repo.kind {
            RepoKind::Unknown => None,
            RepoKind::Github => {
                let url = self.repo.url.as_str();
                let n = url.unicode_len();
                let mut s: String = if ends_with(url, ".git") {
                    proof {
                        reveal_strlit(".git");
                    }
                    substr(url, 0, n - 4)
                } else {
                    String::from_str(url)
                };
                s.append("/compare/");
                let ef = urlencode(from);
                s.append(ef.as_str());
                s.append("...");
                let et = urlencode(to);
                s.append(et.as_str());
                Some(s)
            },
        }
    }
}

/// Prefixes a structural complaint about the metadata document.
pub fn format_err(s: &str) -> (r: String)
    ensures
        r@ == "unexpected metadata format; "@ + s@,
        has_prefix(r@, "unexpected metadata format; "@),
{
    let mut out = String::from_str("unexpected metadata format; ");
    out.append(s);
    assert(out@.subrange(0, "unexpected metadata format; "@.len() as int)
        =~= "unexpected metadata format; "@);
    out
}

/// Ghost model of a JSON value, holding what the enricher reads: nulls,
/// strings, arrays, and objects as a map from key to value. A boolean keeps
/// its value; a number's value plays no part here and is not kept.
pub enum JsonModel {
    Null,
    Bool(bool),
    Number,
    String(Seq<char>),
    Array(Seq<JsonModel>),
    Object(Map<Seq<char>, JsonModel>),
}

/// The member map of an object model; anything else reads as empty.
pub open spec fn json_obj(j: JsonModel) -> Map<Seq<char>, JsonModel> {
    match j {
        JsonModel::Object(m) => m,
        _ => Map::empty(),
    }
}

/// The elements of an array model; anything else reads as empty.
pub open spec fn json_arr(j: JsonModel) -> Seq<JsonModel> {
    match j {
        JsonModel::Array(s) => s,
        _ => Seq::empty(),
    }
}

/// The text of a string model; anything else reads as empty.
pub open spec fn json_str(j: JsonModel) -> Seq<char> {
    match j {
        JsonModel::String(s) => s,
        _ => Seq::empty(),
    }
}

/// What `serde_json::from_slice` yields for a byte sequence: the document's
/// model, or nothing when the bytes are not a JSON document it accepts; a
/// function of the bytes alone.
pub uninterp spec fn meta_parse_of(bytes: Seq<u8>) -> Option<JsonModel>;

/// What a parsed `serde_json::Value` holds.
pub uninterp spec fn json_model(v: serde_json::Value) -> JsonModel;

#[verifier::external_type_specification]
#[verifier::external_body]
pub struct ExJsonValue(serde_json::Value);

#[verifier::external_type_specification]
#[verifier::external_body]
pub struct ExJsonError(serde_json::Error);

/// Relies on `serde_json::from_slice`: parses the metadata document, a
/// function of the bytes alone.
#[verifier::external_body]
fn json_parse(bytes: &[u8]) -> (r: Result<serde_json::Value, serde_json::Error>)
    ensures
        r is Ok <==> meta_parse_of(bytes@) is Some,
        r matches Ok(v) ==> Some(json_model(v)) == meta_parse_of(bytes@),
{
    serde_json::from_slice(bytes)
}

/// Relies on the `Display` of `serde_json::Error` for the parse diagnostic.
#[verifier::external_body]
fn json_err_string(e: &serde_json::Error) -> (r: String) {
    e.to_string()
}

/// Relies on `serde_json::Value::get` with a string key: the member under
/// the key when the value is an object carrying that key, else nothing.
#[verifier::external_body]
fn j_get<'a>(v: &'a serde_json::Value, key: &str) -> (r: Option<&'a serde_json::Value>)
    ensures
        (r is Some) == (json_model(*v) is Object && json_obj(json_model(*v)).contains_key(key@)),
        r matches Some(w) ==> json_model(*w) == json_obj(json_model(*v))[key@],
{
    v.get(key)
}

/// Relies on `serde_json::Value::is_object`.
#[verifier::external_body]
fn j_is_object(v: &serde_json::Value) -> (r: bool)
    ensures
        r == (json_model(*v) is Object),
{
    v.is_object()
}

/// Relies on `serde_json::Value::as_array`: the elements when the value is
/// an array.
#[verifier::external_body]
fn j_as_array<'a>(v: &'a serde_json::Value) -> (r: Option<&'a Vec<serde_json::Value>>)
    ensures
        (r is Some) == (json_model(*v) is Array),
        r matches Some(a) ==> json_arr(json_model(*v)) == a@.map_values(
            |e: serde_json::Value| json_model(e),
        ),
{
    v.as_array()
}

/// Relies on `serde_json::Value::as_str`: the text when the value is a JSON
/// string.
#[verifier::external_body]
fn j_as_str<'a>(v: &'a serde_json::Value) -> (r: Option<&'a str>)
    ensures
        (r is Some) == (json_model(*v) is String),
        r matches Some(s) ==> json_model(*v) == JsonModel::String(s@),
{
    v.as_str()
}

/// Relies on `serde_json::Value::is_null`.
#[verifier::external_body]
fn j_is_null(v: &serde_json::Value) -> (r: bool)
    ensures
        r == (json_model(*v) is Null),
{
    v.is_null()
}

/// The complaint about a key that an object lacks.
pub fn err_key_missing(key: &str) -> (r: String)
    ensures
        r@ == "unexpected metadata format; "@ + "expected key '"@ + key@ + "' is missing"@,
        has_prefix(r@, "unexpected metadata format; "@),
{
    let mut msg = String::from_str("expected key '");
    msg.append(key);
    msg.append("' is missing");
    let out = format_err(msg.as_str());
    assert(out@ =~= "unexpected metadata format; "@ + "expected key '"@ + key@
        + "' is missing"@);
    out
}

/// The complaint about a key whose value is neither a string nor null.
pub fn err_not_string(key: &str) -> (r: String)
    ensures
        r@ == "unexpected metadata format; "@ + "'"@ + key@ + "' is not a string"@,
        has_prefix(r@, "unexpected metadata format; "@),
{
    let mut msg = String::from_str("'");
    msg.append(key);
    msg.append("' is not a string");
    let out = format_err(msg.as_str());
    assert(out@ =~= "unexpected metadata format; "@ + "'"@ + key@ + "' is not a string"@);
    out
}

/// Whether a field of a package object has an allowed shape: a string, null,
/// or absent.
pub open spec fn str_field_ok(m: Map<Seq<char>, JsonModel>, key: Seq<char>) -> bool {
    !m.contains_key(key) || m[key] is Null || m[key] is String
}

/// The text of an optional field: present exactly when the field is a
/// string.
pub open spec fn str_field(m: Map<Seq<char>, JsonModel>, key: Seq<char>) -> Option<Seq<char>> {
    if m.contains_key(key) && m[key] is String {
        Some(json_str(m[key]))
    } else {
        None
    }
}

/// Whether one element of the `packages` array is acceptable: an object
/// whose `name` is a string and whose `source` and `repository` are strings,
/// null, or absent.
pub open spec fn pkg_entry_ok(j: JsonModel) -> bool {
    &&& j is Object
    &&& json_obj(j).contains_key("name"@)
    &&& json_obj(j)["name"@] is String
    &&& str_field_ok(json_obj(j), "source"@)
    &&& str_field_ok(json_obj(j), "repository"@)
}

/// The entry an acceptable package element contributes.
pub open spec fn entry_of_pkg(j: JsonModel) -> EntryModel {
    let m = json_obj(j);
    EntryModel {
        name: json_str(m["name"@]),
        source: source_of(opt_text(str_field(m, "source"@))),
        repo_kind: repo_kind_of(opt_text(str_field(m, "repository"@))),
        repo_url: opt_text(str_field(m, "repository"@)),
    }
}

/// The elements of the document's `packages` array, when the document is an
/// object carrying one.
pub open spec fn doc_packages(j: JsonModel) -> Option<Seq<JsonModel>> {
    if j is Object && json_obj(j).contains_key("packages"@) && json_obj(j)["packages"@] is Array {
        Some(json_arr(json_obj(j)["packages"@]))
    } else {
        None
    }
}

/// Whether the document has the shape the enricher requires throughout.
pub open spec fn metadata_doc_ok(j: JsonModel) -> bool {
    &&& doc_packages(j) is Some
    &&& forall|i: int|
        0 <= i < doc_packages(j).unwrap().len() ==> pkg_entry_ok(
            #[trigger] doc_packages(j).unwrap()[i],
        )
}

/// The entries of an acceptable document, in document order.
pub open spec fn metadata_entries(j: JsonModel) -> Seq<EntryModel> {
    doc_packages(j).unwrap().map_values(|e: JsonModel| entry_of_pkg(e))
}

/// Reads an optional string field of a package object: the text for a
/// string, absent for null or for a missing key, a structural complaint for
/// any other value.
fn get_as_string(obj: &serde_json::Value, key: &str) -> (r: Result<Option<String>, String>)
    requires
        json_model(*obj) is Object,
    ensures
        (r is Ok) == str_field_ok(json_obj(json_model(*obj)), key@),
        r matches Ok(o) ==> (match o {
            Some(s) => str_field(json_obj(json_model(*obj)), key@) == Some(s@),
            None => str_field(json_obj(json_model(*obj)), key@) is None,
        }),
        r matches Err(msg) ==> msg@ == "unexpected metadata format; "@ + "'"@ + key@
            + "' is not a string"@ && has_prefix(msg@, "unexpected metadata format; "@),
{
    match j_get(obj, key) {
        None => Ok(None),
        Some(v) => {
            match j_as_str(v) {
                Some(s) => Ok(Some(String::from_str(s))),
                None => {
                    if j_is_null(v) {
                        Ok(None)
                    } else {
                        Err(err_not_string(key))
                    }
                },
            }
        },
    }
}

/// The enrichment table: one entry per package named by the metadata
/// document, in document order; a later entry under the same name wins.
#[derive(Debug)]
pub struct Metadata {
    pub entries: Vec<Entry>,
}

impl View for Metadata {
    type V = Seq<EntryModel>;

    open spec fn view(&self) -> Seq<EntryModel> {
        self.entries@.map_values(|e: Entry| e@)
    }
}

/// The entry a name resolves to: the last entry under that name.
pub open spec fn meta_lookup(s: Seq<EntryModel>, name: Seq<char>) -> Option<EntryModel>
    decreases s.len(),
{
    if s.len() == 0 {
        None
    } else if s.last().name == name {
        Some(s.last())
    } else {
        meta_lookup(s.drop_last(), name)
    }
}

/// Every entry's classifications agree with the strings it was built from.
pub open spec fn metadata_wf(s: Seq<EntryModel>) -> bool {
    forall|i: int| 0 <= i < s.len() ==> entry_wf(#[trigger] s[i])
}

impl Metadata {
    /// The table's classifications are consistent.
    pub open spec fn wf(&self) -> bool {
        metadata_wf(self@)
    }

    /// The entry under a name, if the metadata document named the package.
    pub fn get(&self, name: &str) -> (r: Option<&Entry>)
        ensures
            (match r {
                Some(e) => meta_lookup(self@, name@) == Some(e@),
                None => meta_lookup(self@, name@) is None,
            }),
    {
        let n = self.entries.len();
        let mut i: usize = n;
        proof {
            assert(self@.subrange(0, n as int) =~= self@);
        }
        while i > 0
            invariant
                i <= n,
                n == self.entries@.len(),
                meta_lookup(self@, name@) == meta_lookup(self@.subrange(0, i as int), name@),
            decreases i,
        {
            let ghost pre = self@.subrange(0, i as int);
            proof {
                assert(pre.drop_last() =~= self@.subrange(0, i - 1 as int));
                assert(pre.last() == self@[i - 1 as int]);
            }
            if str_eq(self.entries[i - 1].name.as_str(), name) {
                assert(self@[i - 1 as int].name == name@);
                return Some(&self.entries[i - 1]);
            }
            assert(self@[i - 1 as int].name != name@);
            i = i - 1;
        }
        assert(self@.subrange(0, 0) =~= Seq::<EntryModel>::empty());
        None
    }
}

/// The invocation that produces the metadata document: the package manager's
/// metadata subcommand, pinned format, all features, offline.
pub fn metadata_invocation() -> (inv: Invocation)
    ensures
        inv@ == crate::load::InvocationModel::Run(
            "cargo"@,
            seq!["metadata"@, "--format-version"@, "1"@, "--all-features"@, "--offline"@],
        ),
{
    let mut args: Vec<String> = Vec::new();
    args.push(String::from_str("metadata"));
    args.push(String::from_str("--format-version"));
    args.push(String::from_str("1"));
    args.push(String::from_str("--all-features"));
    args.push(String::from_str("--offline"));
    proof {
        assert(args@.map_values(|a: String| a@) =~= seq![
            "metadata"@,
            "--format-version"@,
            "1"@,
            "--all-features"@,
            "--offline"@,
        ]);
    }
    Invocation::Run { program: String::from_str("cargo"), args }
}

/// Builds the enrichment table from the metadata document's bytes. It
/// succeeds exactly when the bytes parse to a JSON object whose `packages`
/// is an array of objects, each with a string `name` and with `source` and
/// `repository` that are strings, null, or absent; each package then
/// contributes the entry of §-style classification, in document order, where
/// null or absent strings count as empty. Anything else fails: an
/// unparseable document with the grammar's diagnostic, every structural
/// deviation with a message that begins `unexpected metadata format; `.
pub fn load_metadata(output: &[u8]) -> (r: Result<Metadata, String>)
    ensures
        (r is Ok) == (meta_parse_of(output@) is Some && metadata_doc_ok(
            meta_parse_of(output@).unwrap(),
        )),
        r matches Ok(m) ==> m@ == metadata_entries(meta_parse_of(output@).unwrap()) && m.wf(),
        r matches Err(msg) ==> (meta_parse_of(output@) is Some ==> has_prefix(
            msg@,
            "unexpected metadata format; "@,
        )),
{
    let v = match json_parse(output) {
        Ok(v) => v,
        Err(e) => {
            return Err(json_err_string(&e));
        },
    };
    let ghost jm = json_model(v);
    proof {
        assert(Some(jm) == meta_parse_of(output@));
    }
    let packages = match j_get(&v, "packages") {
        Some(p) => p,
        None => {
            assert(doc_packages(jm) is None);
            return Err(format_err("'packages' key is missing"));
        },
    };
    let ghost pj = json_obj(jm)["packages"@];
    assert(json_model(*packages) == pj);
    let arr = match j_as_array(packages) {
        Some(a) => a,
        None => {
            assert(doc_packages(jm) is None);
            return Err(format_err("'packages' key is missing"));
        },
    };
    let ghost elems = json_arr(pj);
    proof {
        assert(doc_packages(jm) == Some(elems));
        assert(elems == arr@.map_values(|e: serde_json::Value| json_model(e)));
    }
    let n = arr.len();
    let mut entries: Vec<Entry> = Vec::new();
    let mut i: usize = 0;
    while i < n
        invariant
            i <= n,
            n == arr@.len(),
            n == elems.len(),
            elems == arr@.map_values(|e: serde_json::Value| json_model(e)),
            doc_packages(jm) == Some(elems),
            Some(jm) == meta_parse_of(output@),
            entries@.len() == i,
            forall|j: int| 0 <= j < i ==> pkg_entry_ok(#[trigger] elems[j]),
            forall|j: int| 0 <= j < i ==> (#[trigger] entries@[j])@ == entry_of_pkg(elems[j]),
        decreases n - i,
    {
        let elem = &arr[i];
        let ghost ej = elems[i as int];
        proof {
            assert(json_model(arr@[i as int]) == elems[i as int]);
        }
        if !j_is_object(elem) {
            proof {
                lemma_doc_not_ok(jm, elems, i as int);
            }
            return Err(format_err("packages is not an array of objects"));
        }
        let ghost em = json_obj(ej);
        let name = match j_get(elem, "name") {
            None => {
                proof {
                    lemma_doc_not_ok(jm, elems, i as int);
                }
                return Err(err_key_missing("name"));
            },
            Some(nv) => {
                match j_as_str(nv) {
                    Some(s) => {
                        assert(em["name"@] == JsonModel::String(s@));
                        String::from_str(s)
                    },
                    None => {
                        proof {
                            lemma_doc_not_ok(jm, elems, i as int);
                        }
                        if j_is_null(nv) {
                            return Err(format_err("package name is empty"));
                        } else {
                            return Err(err_not_string("name"));
                        }
                    },
                }
            },
        };
        let source = match get_as_string(elem, "source") {
            Ok(o) => o,
            Err(e) => {
                proof {
                    lemma_doc_not_ok(jm, elems, i as int);
                }
                return Err(e);
            },
        };
        let repo = match get_as_string(elem, "repository") {
            Ok(o) => o,
            Err(e) => {
                proof {
                    lemma_doc_not_ok(jm, elems, i as int);
                }
                return Err(e);
            },
        };
        let ghost name_view = name@;
        let ghost src_view: Option<Seq<char>> = match &source {
            Some(s) => Some(s@),
            None => None,
        };
        let ghost repo_view: Option<Seq<char>> = match &repo {
            Some(s) => Some(s@),
            None => None,
        };
        proof {
            assert(pkg_entry_ok(ej));
            assert(name_view == json_str(em["name"@]));
            assert(src_view == str_field(em, "source"@));
            assert(repo_view == str_field(em, "repository"@));
        }
        let ent = Entry::new(name, source, repo);
        proof {
            assert(ent@.name == name_view);
            assert(ent@.source == source_of(opt_text(src_view)));
            assert(ent@.repo_url == opt_text(repo_view));
            assert(ent@.repo_kind == repo_kind_of(ent@.repo_url));
            assert(ent@ == entry_of_pkg(ej));
        }
        entries.push(ent);
        i = i + 1;
    }
    let m = Metadata { entries };
    proof {
        assert(metadata_doc_ok(jm));
        assert(m@ =~= metadata_entries(jm)) by {
            assert forall|j: int| 0 <= j < n implies m@[j] == metadata_entries(jm)[j] by {
                assert(m@[j] == m.entries@[j]@);
            }
        }
        assert forall|j: int| 0 <= j < m@.len() implies entry_wf(#[trigger] m@[j]) by {
            assert(m@[j] == m.entries@[j]@);
            assert(m.entries@[j]@ == entry_of_pkg(elems[j]));
        }
    }
    Ok(m)
}

/// A package element that deviates makes the whole document unacceptable.
proof fn lemma_doc_not_ok(jm: JsonModel, elems: Seq<JsonModel>, i: int)
    requires
        doc_packages(jm) == Some(elems),
        0 <= i < elems.len(),
        !pkg_entry_ok(elems[i]),
    ensures
        !metadata_doc_ok(jm),
{
    if metadata_doc_ok(jm) {
        assert(pkg_entry_ok(doc_packages(jm).unwrap()[i]));
    }
}

} // verus!
