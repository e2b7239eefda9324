use vstd::prelude::*;

verus! {

/// A package record as the lock-file grammar yields it: a name, the textual
/// form of its resolved version, and its source identifier when the lock
/// file names one.
#[derive(Debug)]
pub struct PackageRecord {
    pub name: String,
    pub version: String,
    pub source: Option<String>,
}

/// Mathematical model of a package record.
pub struct PackageModel {
    pub name: Seq<char>,
    pub version: Seq<char>,
    pub source: Option<Seq<char>>,
}

impl View for PackageRecord {
    type V = PackageModel;

    open spec fn view(&self) -> PackageModel {
        PackageModel {
            name: self.name@,
            version: self.version@,
            source: match self.source {
                Some(s) => Some(s@),
                None => None,
            },
        }
    }
}

/// A parsed lock file: the sequence of its package records, in file order.
#[derive(Debug)]
pub struct LockSnapshot {
    pub packages: Vec<PackageRecord>,
}

impl View for LockSnapshot {
    type V = Seq<PackageModel>;

    open spec fn view(&self) -> Seq<PackageModel> {
        self.packages@.map_values(|p: PackageRecord| p@)
    }
}

#[verifier::external_type_specification]
#[verifier::external_body]
pub struct ExCargoLockfile(cargo_lock::Lockfile);

#[verifier::external_type_specification]
#[verifier::external_body]
pub struct ExCargoPackage(cargo_lock::Package);

#[verifier::external_type_specification]
#[verifier::external_body]
pub struct ExCargoError(cargo_lock::Error);

/// The package records that the lock-file grammar yields for a text, or
/// nothing when the text is not a well-formed lock file.
pub uninterp spec fn lock_parse_of(text: Seq<char>) -> Option<Seq<PackageModel>>;

/// What a parsed `cargo_lock::Package` holds, as plain values.
pub uninterp spec fn pkg_model(p: cargo_lock::Package) -> PackageModel;

/// The package records a parsed `cargo_lock::Lockfile` holds, in file order.
pub uninterp spec fn lock_packages(lf: cargo_lock::Lockfile) -> Seq<PackageModel>;

/// Relies on `cargo_lock::Lockfile`'s `FromStr`: parses lock-file text, a
/// function of the text alone.
#[verifier::external_body]
fn parse_lock_text(text: &str) -> (r: Result<cargo_lock::Lockfile, cargo_lock::Error>)
    ensures
        r is Ok <==> lock_parse_of(text@) is Some,
        r matches Ok(raw) ==> Some(lock_packages(raw)) == lock_parse_of(text@),
{
    <cargo_lock::Lockfile as std::str::FromStr>::from_str(text)
}

/// Relies on the public `packages` field of `cargo_lock::Lockfile`: the
/// parsed package records, in file order.
#[verifier::external_body]
fn lock_packages_vec(lf: &cargo_lock::Lockfile) -> (r: &Vec<cargo_lock::Package>)
    ensures
        r@.map_values(|p: cargo_lock::Package| pkg_model(p)) == lock_packages(*lf),
{
    &lf.packages
}

/// Relies on `cargo_lock::Name::as_str`: the package's name.
#[verifier::external_body]
fn pkg_name(p: &cargo_lock::Package) -> (r: String)
    ensures
        r@ == pkg_model(*p).name,
{
    p.name.as_str().to_string()
}

/// Relies on the `Display` of semver's `Version`, through which the lock-file
/// grammar renders a version: its canonical text.
#[verifier::external_body]
fn pkg_version(p: &cargo_lock::Package) -> (r: String)
    ensures
        r@ == pkg_model(*p).version,
{
    p.version.to_string()
}

/// Relies on the `Display` of `cargo_lock::SourceId`: the source identifier
/// in its URL form, when the record names one.
#[verifier::external_body]
fn pkg_source(p: &cargo_lock::Package) -> (r: Option<String>)
    ensures
        (match r {
            Some(s) => pkg_model(*p).source == Some(s@),
            None => pkg_model(*p).source is None,
        }),
{
    p.source.as_ref().map(|s| s.to_string())
}

/// Relies on the `Display` of `cargo_lock::Error` for the parse diagnostic.
#[verifier::external_body]
fn lock_err_string(e: &cargo_lock::Error) -> (r: String)
{
    e.to_string()
}

impl LockSnapshot {
    /// Parses lock-file text into its package records; the error carries the
    /// grammar's diagnostic.
    pub fn parse(text: &str) -> (r: Result<LockSnapshot, String>)
        ensures
            r is Ok <==> lock_parse_of(text@) is Some,
            r matches Ok(lf) ==> Some(lf@) == lock_parse_of(text@),
    {
        match parse_lock_text(text) {
            Ok(raw) => {
                let pkgs_raw = lock_packages_vec(&raw);
                let ghost target = lock_packages(raw);
                let n = pkgs_raw.len();
                let mut packages: Vec<PackageRecord> = Vec::new();
                assert(pkgs_raw@.map_values(|p: cargo_lock::Package| pkg_model(p)) == target);
                assert(n == target.len());
                let mut i: usize = 0;
                while i < n
                    invariant
                        i <= n,
                        n == pkgs_raw@.len(),
                        n == target.len(),
                        pkgs_raw@.map_values(|p: cargo_lock::Package| pkg_model(p)) == target,
                        packages@.len() == i,
                        forall|j: int| 0 <= j < i ==> (#[trigger] packages@[j])@ == target[j],
                    decreases n - i,
                {
                    let rec = PackageRecord {
                        name: pkg_name(&pkgs_raw[i]),
                        version: pkg_version(&pkgs_raw[i]),
                        source: pkg_source(&pkgs_raw[i]),
                    };
                    assert(rec@ == target[i as int]) by {
                        assert(pkgs_raw@.map_values(|p: cargo_lock::Package| pkg_model(p))[i as int]
                            == pkg_model(pkgs_raw@[i as int]));
                    }
                    packages.push(rec);
                    i = i + 1;
                }
                let lf = LockSnapshot { packages };
                assert(lf@ =~= target) by {
                    assert forall|j: int| 0 <= j < n implies lf@[j] == target[j] by {
                        assert(lf@[j] == packages@[j]@);
                    }
                }
                Ok(lf)
            },
            Err(e) => Err(lock_err_string(&e)),
        }
    }
}

} // verus!
