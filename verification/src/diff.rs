use vstd::prelude::*;

verus! {

use vstd::pervasive::VecAdditionalExecFns;
use vstd::string::StringExecFns;
use crate::strutil::lex_lt;
use crate::strutil::str_eq;
use crate::strutil::lemma_lex_trichotomy;
use crate::lockfile::LockSnapshot;
use crate::lockfile::PackageRecord;
use crate::lockfile::PackageModel;

/// One side of a change record: the package is new on that side, removed on
/// that side, or present at a version.
#[derive(Debug)]
pub enum Version {
    New,
    Removed,
    At(String),
}

/// Mathematical model of a change side.
pub enum VersionModel {
    New,
    Removed,
    At(Seq<char>),
}

impl View for Version {
    type V = VersionModel;

    open spec fn view(&self) -> VersionModel {
        match self {
            Version::New => VersionModel::New,
            Version::Removed => VersionModel::Removed,
            Version::At(s) => VersionModel::At(s@),
        }
    }
}

impl Clone for Version {
    fn clone(&self) -> (r: Version)
        ensures
            r@ == self@,
    {
        match self {
            Version::New => Version::New,
            Version::Removed => Version::Removed,
            Version::At(s) => Version::At(s.clone()),
        }
    }
}

/// The textual rendering of a change side: `NEW`, `REMOVED`, or the version.
pub open spec fn version_text(v: VersionModel) -> Seq<char> {
    match v {
        VersionModel::New => "NEW"@,
        VersionModel::Removed => "REMOVED"@,
        VersionModel::At(s) => s,
    }
}

impl Version {
    /// Renders the change side as text: `NEW`, `REMOVED`, or the version.
    pub fn render(&self) -> (r: String)
        ensures
            r@ == version_text(self@),
    {
        match self {
            Version::New => String::from_str("NEW"),
            Version::Removed => String::from_str("REMOVED"),
            Version::At(s) => s.clone(),
        }
    }
}

/// How one package's resolved version differs between the two sides.
#[derive(Debug)]
pub struct Changes {
    pub name: String,
    pub from: Version,
    pub to: Version,
    pub source: Option<String>,
}

/// Mathematical model of a change record.
pub struct ChangeModel {
    pub name: Seq<char>,
    pub from: VersionModel,
    pub to: VersionModel,
    pub source: Option<Seq<char>>,
}

impl View for Changes {
    type V = ChangeModel;

    open spec fn view(&self) -> ChangeModel {
        ChangeModel {
            name: self.name@,
            from: self.from@,
            to: self.to@,
            source: match self.source {
                Some(s) => Some(s@),
                None => None,
            },
        }
    }
}

/// Copies an optional source string.
fn clone_opt_string(s: &Option<String>) -> (r: Option<String>)
    ensures
        (match r {
            Some(x) => match s {
                Some(y) => x@ == y@,
                None => false,
            },
            None => s is None,
        }),
{
    match s {
        Some(x) => Some(x.clone()),
        None => None,
    }
}

/// The change record for a package seen only on the `from` side so far.
pub open spec fn change_from_old(p: PackageModel) -> ChangeModel {
    ChangeModel {
        name: p.name,
        from: VersionModel::At(p.version),
        to: VersionModel::Removed,
        source: p.source,
    }
}

/// The change record for a package seen only on the `to` side.
pub open spec fn change_from_new(p: PackageModel) -> ChangeModel {
    ChangeModel {
        name: p.name,
        from: VersionModel::New,
        to: VersionModel::At(p.version),
        source: p.source,
    }
}

impl Changes {
    /// Builds the record for a package of the `from` side: present there,
    /// and, until the other side is walked, removed on the `to` side.
    pub fn from_old(pkg: &PackageRecord) -> (c: Changes)
        ensures
            c@ == change_from_old(pkg@),
    {
        Changes {
            name: pkg.name.clone(),
            from: Version::At(pkg.version.clone()),
            to: Version::Removed,
            source: clone_opt_string(&pkg.source),
        }
    }

    /// Builds the record for a package seen only on the `to` side.
    pub fn from_new(pkg: &PackageRecord) -> (c: Changes)
        ensures
            c@ == change_from_new(pkg@),
    {
        Changes {
            name: pkg.name.clone(),
            from: Version::New,
            to: Version::At(pkg.version.clone()),
            source: clone_opt_string(&pkg.source),
        }
    }
}

/// The mapping after every package of the `from` side is recorded, in order;
/// a later record under the same name overwrites an earlier one.
pub open spec fn diff_after_from(pkgs: Seq<PackageModel>) -> Map<Seq<char>, ChangeModel>
    decreases pkgs.len(),
{
    if pkgs.len() == 0 {
        Map::empty()
    } else {
        diff_after_from(pkgs.drop_last()).insert(
            pkgs.last().name,
            change_from_old(pkgs.last()),
        )
    }
}

/// One step of the `to` walk: an entry whose `from` side already holds the
/// package's version is dropped as unchanged; an entry under the same name
/// gets its `to` side set; an unseen name is recorded as new.
pub open spec fn diff_step(
    m: Map<Seq<char>, ChangeModel>,
    p: PackageModel,
) -> Map<Seq<char>, ChangeModel> {
    if m.contains_key(p.name) {
        if m[p.name].from == VersionModel::At(p.version) {
            m.remove(p.name)
        } else {
            m.insert(
                p.name,
                ChangeModel {
                    name: m[p.name].name,
                    from: m[p.name].from,
                    to: VersionModel::At(p.version),
                    source: m[p.name].source,
                },
            )
        }
    } else {
        m.insert(p.name, change_from_new(p))
    }
}

/// The mapping after the packages of the `to` side are walked, in order.
pub open spec fn diff_after_to(
    m: Map<Seq<char>, ChangeModel>,
    pkgs: Seq<PackageModel>,
) -> Map<Seq<char>, ChangeModel>
    decreases pkgs.len(),
{
    if pkgs.len() == 0 {
        m
    } else {
        diff_step(diff_after_to(m, pkgs.drop_last()), pkgs.last())
    }
}

/// The diff of two lock files, as a mapping from package name to change.
pub open spec fn spec_diff(
    from: Seq<PackageModel>,
    to: Seq<PackageModel>,
) -> Map<Seq<char>, ChangeModel> {
    diff_after_to(diff_after_from(from), to)
}

/// The package a side resolves a name to: the last record under that name.
pub open spec fn lookup(pkgs: Seq<PackageModel>, name: Seq<char>) -> Option<PackageModel>
    decreases pkgs.len(),
{
    if pkgs.len() == 0 {
        None
    } else if pkgs.last().name == name {
        Some(pkgs.last())
    } else {
        lookup(pkgs.drop_last(), name)
    }
}

/// No two package records of the side share a name.
pub open spec fn unique_names(pkgs: Seq<PackageModel>) -> bool {
    forall|i: int, j: int|
        0 <= i < j < pkgs.len() ==> (#[trigger] pkgs[i]).name != (#[trigger] pkgs[j]).name
}

/// What the diff owes a name: nothing when the name is absent from both
/// sides or resolves to the same version on both; otherwise the change
/// record with the versions, or the `New`/`Removed` marker for the side the
/// name is absent from.
pub open spec fn expected_change(
    from: Seq<PackageModel>,
    to: Seq<PackageModel>,
    name: Seq<char>,
) -> Option<ChangeModel> {
    match (lookup(from, name), lookup(to, name)) {
        (Option::None, Option::None) => None,
        (Option::Some(p), Option::None) => Some(change_from_old(p)),
        (Option::None, Option::Some(q)) => Some(change_from_new(q)),
        (Option::Some(p), Option::Some(q)) => if p.version == q.version {
            None
        } else {
            Some(
                ChangeModel {
                    name: name,
                    from: VersionModel::At(p.version),
                    to: VersionModel::At(q.version),
                    source: p.source,
                },
            )
        },
    }
}

/// A looked-up record carries the name it was looked up under.
proof fn lemma_lookup_name(pkgs: Seq<PackageModel>, name: Seq<char>)
    ensures
        lookup(pkgs, name) is Some ==> lookup(pkgs, name).unwrap().name == name,
    decreases pkgs.len(),
{
    if pkgs.len() > 0 && pkgs.last().name != name {
        lemma_lookup_name(pkgs.drop_last(), name);
    }
}

/// A name that no record carries is not resolved.
proof fn lemma_lookup_absent(pkgs: Seq<PackageModel>, name: Seq<char>)
    ensures
        (lookup(pkgs, name) is None) <==> (forall|k: int|
            0 <= k < pkgs.len() ==> (#[trigger] pkgs[k]).name != name),
    decreases pkgs.len(),
{
    if pkgs.len() > 0 {
        lemma_lookup_absent(pkgs.drop_last(), name);
        if pkgs.last().name != name && lookup(pkgs.drop_last(), name) is None {
            assert forall|k: int| 0 <= k < pkgs.len() implies (#[trigger] pkgs[k]).name
                != name by {
                if k < pkgs.len() - 1 {
                    assert(pkgs.drop_last()[k] == pkgs[k]);
                }
            }
        }
    }
}

/// After the `from` walk, the mapping holds exactly the names the `from`
/// side resolves, each at the record of its resolved package.
proof fn lemma_after_from_at(pkgs: Seq<PackageModel>, n: Seq<char>)
    ensures
        diff_after_from(pkgs).contains_key(n) <==> lookup(pkgs, n) is Some,
        lookup(pkgs, n) is Some ==> diff_after_from(pkgs)[n] == change_from_old(
            lookup(pkgs, n).unwrap(),
        ),
    decreases pkgs.len(),
{
    if pkgs.len() > 0 {
        lemma_after_from_at(pkgs.drop_last(), n);
    }
}

/// The full walk leaves each name at exactly what `expected_change` owes it.
proof fn lemma_diff_at(from: Seq<PackageModel>, to: Seq<PackageModel>, n: Seq<char>)
    requires
        unique_names(to),
    ensures
        spec_diff(from, to).contains_key(n) <==> expected_change(from, to, n) is Some,
        expected_change(from, to, n) is Some ==> spec_diff(from, to)[n] == expected_change(
            from,
            to,
            n,
        ).unwrap(),
    decreases to.len(),
{
    if to.len() == 0 {
        lemma_after_from_at(from, n);
        lemma_lookup_name(from, n);
    } else {
        let to0 = to.drop_last();
        let p = to.last();
        assert(unique_names(to0)) by {
            assert(forall|k: int| 0 <= k < to0.len() ==> to0[k] == to[k]);
        }
        lemma_diff_at(from, to0, n);
        assert(diff_after_to(diff_after_from(from), to) == diff_step(
            diff_after_to(diff_after_from(from), to0),
            p,
        ));
        if n == p.name {
            assert(lookup(to0, p.name) is None) by {
                assert forall|k: int| 0 <= k < to0.len() implies (#[trigger] to0[k]).name
                    != p.name by {
                    assert(to0[k] == to[k]);
                    assert(to[k].name != to[to.len() - 1].name);
                }
                lemma_lookup_absent(to0, p.name);
            }
            assert(lookup(to, p.name) == Some(p));
            lemma_lookup_name(from, n);
        } else {
            assert(lookup(to, n) == lookup(to0, n));
        }
    }
}

/// Strictly increasing names, in lexicographic order.
pub open spec fn names_sorted(s: Seq<ChangeModel>) -> bool {
    forall|i: int, j: int|
        0 <= i < j < s.len() ==> lex_lt(#[trigger] s[i].name, #[trigger] s[j].name)
}

/// The mapping a sequence of change records stands for; a later record under
/// the same name overwrites an earlier one.
pub open spec fn as_map(s: Seq<ChangeModel>) -> Map<Seq<char>, ChangeModel>
    decreases s.len(),
{
    if s.len() == 0 {
        Map::empty()
    } else {
        as_map(s.drop_last()).insert(s.last().name, s.last())
    }
}

/// The mapping's keys are exactly the names of the records.
pub proof fn lemma_as_map_contains(s: Seq<ChangeModel>, n: Seq<char>)
    ensures
        as_map(s).contains_key(n) <==> exists|i: int|
            0 <= i < s.len() && (#[trigger] s[i]).name == n,
    decreases s.len(),
{
    if s.len() > 0 {
        lemma_as_map_contains(s.drop_last(), n);
        if s.last().name == n {
            assert(s[s.len() - 1].name == n);
        } else if as_map(s).contains_key(n) {
            let i = choose|i: int| 0 <= i < s.drop_last().len() && (#[trigger] s.drop_last()[i]).name == n;
            assert(s[i].name == n);
        } else {
            if exists|i: int| 0 <= i < s.len() && (#[trigger] s[i]).name == n {
                let i = choose|i: int| 0 <= i < s.len() && (#[trigger] s[i]).name == n;
                assert(s.drop_last()[i].name == n);
            }
        }
    }
}

/// With sorted (hence distinct) names, the mapping sends each record's name
/// to that record.
pub proof fn lemma_as_map_index(s: Seq<ChangeModel>, i: int)
    requires
        names_sorted(s),
        0 <= i < s.len(),
    ensures
        as_map(s).contains_key(s[i].name),
        as_map(s)[s[i].name] == s[i],
    decreases s.len(),
{
    if i == s.len() - 1 {
        assert(s.last() == s[i]);
    } else {
        assert(names_sorted(s.drop_last())) by {
            assert(forall|k: int| 0 <= k < s.len() - 1 ==> s.drop_last()[k] == s[k]);
        }
        lemma_as_map_index(s.drop_last(), i);
        assert(lex_lt(s[i].name, s.last().name));
        lemma_lex_trichotomy(s[i].name, s.last().name);
        assert(s.drop_last()[i] == s[i]);
    }
}

/// Inserting one record whose name no later record carries adds exactly one
/// key to the mapping.
proof fn lemma_as_map_insert_mid(pre: Seq<ChangeModel>, suf: Seq<ChangeModel>, ch: ChangeModel)
    requires
        forall|k: int| 0 <= k < suf.len() ==> (#[trigger] suf[k]).name != ch.name,
    ensures
        as_map(pre + seq![ch] + suf) == as_map(pre + suf).insert(ch.name, ch),
    decreases suf.len(),
{
    if suf.len() == 0 {
        assert(pre + seq![ch] + suf =~= pre.push(ch));
        assert(pre + suf =~= pre);
        assert(pre.push(ch).drop_last() =~= pre);
        assert(pre.push(ch).last() == ch);
        assert(as_map(pre.push(ch)) == as_map(pre).insert(ch.name, ch));
    } else {
        let suf0 = suf.drop_last();
        let y = suf.last();
        assert(forall|k: int| 0 <= k < suf0.len() ==> suf0[k] == suf[k]);
        lemma_as_map_insert_mid(pre, suf0, ch);
        let s1 = pre + seq![ch] + suf;
        assert(s1 =~= (pre + seq![ch] + suf0).push(y));
        assert(s1.drop_last() =~= pre + seq![ch] + suf0);
        assert(s1.last() == y);
        assert(as_map(s1) == as_map(pre + seq![ch] + suf0).insert(y.name, y));
        let s2 = pre + suf;
        assert(s2 =~= (pre + suf0).push(y));
        assert(s2.drop_last() =~= pre + suf0);
        assert(s2.last() == y);
        assert(as_map(s2) == as_map(pre + suf0).insert(y.name, y));
        assert(y.name != ch.name) by {
            assert(suf[suf.len() - 1].name != ch.name);
        }
        assert(as_map(pre + suf0).insert(ch.name, ch).insert(y.name, y) =~= as_map(
            pre + suf0,
        ).insert(y.name, y).insert(ch.name, ch));
    }
}

/// Replacing the one record under a name updates that key and nothing else.
proof fn lemma_as_map_replace_mid(
    pre: Seq<ChangeModel>,
    suf: Seq<ChangeModel>,
    x: ChangeModel,
    ch: ChangeModel,
)
    requires
        x.name == ch.name,
        forall|k: int| 0 <= k < suf.len() ==> (#[trigger] suf[k]).name != ch.name,
    ensures
        as_map(pre + seq![ch] + suf) == as_map(pre + seq![x] + suf).insert(ch.name, ch),
{
    lemma_as_map_insert_mid(pre, suf, ch);
    lemma_as_map_insert_mid(pre, suf, x);
    assert(as_map(pre + suf).insert(x.name, x).insert(ch.name, ch) =~= as_map(pre + suf).insert(
        ch.name,
        ch,
    ));
}

/// Dropping the one record under a name removes that key and nothing else.
proof fn lemma_as_map_remove_mid(pre: Seq<ChangeModel>, suf: Seq<ChangeModel>, x: ChangeModel)
    requires
        forall|k: int| 0 <= k < suf.len() ==> (#[trigger] suf[k]).name != x.name,
        forall|k: int| 0 <= k < pre.len() ==> (#[trigger] pre[k]).name != x.name,
    ensures
        as_map(pre + suf) == as_map(pre + seq![x] + suf).remove(x.name),
{
    lemma_as_map_insert_mid(pre, suf, x);
    lemma_as_map_contains(pre + suf, x.name);
    assert forall|k: int| 0 <= k < (pre + suf).len() implies (#[trigger] (pre + suf)[k]).name
        != x.name by {
        if k < pre.len() {
            assert((pre + suf)[k] == pre[k]);
        } else {
            assert((pre + suf)[k] == suf[k - pre.len()]);
        }
    }
    assert(!as_map(pre + suf).contains_key(x.name));
    assert(as_map(pre + suf).insert(x.name, x).remove(x.name) =~= as_map(pre + suf));
}

/// An alphabetically ordered set of change records, one per package name.
#[derive(Debug)]
pub struct Diff {
    pub entries: Vec<Changes>,
}

impl View for Diff {
    type V = Seq<ChangeModel>;

    open spec fn view(&self) -> Seq<ChangeModel> {
        self.entries@.map_values(|c: Changes| c@)
    }
}

impl Diff {
    /// The records stand in strictly increasing name order.
    pub open spec fn wf(&self) -> bool {
        names_sorted(self@)
    }

    /// An empty diff.
    pub fn new() -> (d: Diff)
        ensures
            d.wf(),
            d@ =~= Seq::<ChangeModel>::empty(),
            as_map(d@) =~= Map::<Seq<char>, ChangeModel>::empty(),
    {
        let d = Diff { entries: Vec::new() };
        assert(d@ =~= Seq::<ChangeModel>::empty());
        d
    }

    /// How many packages changed.
    pub fn len(&self) -> (n: usize)
        ensures
            n == self@.len(),
    {
        self.entries.len()
    }

    /// Whether nothing changed.
    pub fn is_empty(&self) -> (r: bool)
        ensures
            r == (self@.len() == 0),
    {
        self.entries.len() == 0
    }

    /// The position of the record under `name`, if one stands in the diff.
    pub fn find(&self, name: &str) -> (r: Option<usize>)
        ensures
            match r {
                Some(j) => j < self@.len() && self@[j as int].name == name@,
                None => forall|i: int| 0 <= i < self@.len() ==> (#[trigger] self@[i]).name != name@,
            },
    {
        let n = self.entries.len();
        let mut i: usize = 0;
        while i < n
            invariant
                i <= n,
                n == self.entries@.len(),
                forall|k: int| 0 <= k < i ==> (#[trigger] self@[k]).name != name@,
            decreases n - i,
        {
            if str_eq(self.entries[i].name.as_str(), name) {
                assert(self@[i as int].name == name@);
                return Some(i);
            }
            assert(self@[i as int].name != name@);
            i = i + 1;
        }
        None
    }

    /// The position of the first record whose name is not below `name`.
    fn lower_bound(&self, name: &str) -> (j: usize)
        ensures
            j <= self@.len(),
            forall|k: int| 0 <= k < j ==> lex_lt((#[trigger] self@[k]).name, name@),
            j < self@.len() ==> !lex_lt(self@[j as int].name, name@),
    {
        let n = self.entries.len();
        let mut j: usize = 0;
        loop
            invariant
                j <= n,
                n == self.entries@.len(),
                forall|k: int| 0 <= k < j ==> lex_lt((#[trigger] self@[k]).name, name@),
            decreases n - j,
        {
            if j >= n {
                return j;
            }
            if crate::strutil::str_cmp(self.entries[j].name.as_str(), name) >= 0 {
                proof {
                    crate::strutil::lemma_lex_trichotomy(self@[j as int].name, name@);
                }
                return j;
            }
            assert(lex_lt(self@[j as int].name, name@));
            j = j + 1;
        }
    }

    /// Inserts a record at its place in name order; a record already under
    /// the same name is replaced.
    pub fn insert_entry(&mut self, ch: Changes)
        requires
            old(self).wf(),
        ensures
            final(self).wf(),
            as_map(final(self)@) == as_map(old(self)@).insert(ch@.name, ch@),
    {
        let n = self.entries.len();
        let j = self.lower_bound(ch.name.as_str());
        let ghost s_old = self@;
        let ghost pre = s_old.subrange(0, j as int);
        let ghost m_old = as_map(s_old);
        if j < n && str_eq(self.entries[j].name.as_str(), ch.name.as_str()) {
            let ghost x = s_old[j as int];
            let ghost suf = s_old.subrange(j + 1, s_old.len() as int);
            proof {
                assert(s_old =~= pre + seq![x] + suf);
                assert forall|k: int| 0 <= k < suf.len() implies (#[trigger] suf[k]).name
                    != ch@.name by {
                    assert(suf[k] == s_old[j + 1 + k]);
                    assert(lex_lt(s_old[j as int].name, s_old[j + 1 + k].name));
                    lemma_lex_trichotomy(s_old[j as int].name, s_old[j + 1 + k].name);
                }
                lemma_as_map_replace_mid(pre, suf, x, ch@);
            }
            self.entries.set(j, ch);
            proof {
                assert(self@ =~= pre + seq![ch@] + suf);
                assert(as_map(self@) == m_old.insert(ch@.name, ch@));
                assert_sorted_after_splice(s_old, pre, suf, ch@, j as int);
            }
        } else {
            let ghost suf = s_old.subrange(j as int, s_old.len() as int);
            proof {
                if j < s_old.len() {
                    assert(s_old[j as int].name != ch@.name);
                    lemma_lex_trichotomy(s_old[j as int].name, ch@.name);
                    assert(lex_lt(ch@.name, s_old[j as int].name));
                }
                assert(s_old =~= pre + suf);
                assert forall|k: int| 0 <= k < suf.len() implies (#[trigger] suf[k]).name
                    != ch@.name by {
                    assert(suf[k] == s_old[j + k]);
                    if k == 0 {
                        lemma_lex_trichotomy(ch@.name, s_old[j as int].name);
                    } else {
                        assert(lex_lt(s_old[j as int].name, s_old[j + k].name));
                        crate::strutil::lemma_lex_trans(
                            ch@.name,
                            s_old[j as int].name,
                            s_old[j + k].name,
                        );
                        lemma_lex_trichotomy(ch@.name, s_old[j + k].name);
                    }
                }
                lemma_as_map_insert_mid(pre, suf, ch@);
            }
            self.entries.insert(j, ch);
            proof {
                assert(self@ =~= pre + seq![ch@] + suf);
                assert(as_map(self@) == m_old.insert(ch@.name, ch@));
                assert_sorted_after_insert(s_old, pre, suf, ch@, j as int);
            }
        }
    }

    /// Drops the record at a position.
    pub fn remove_entry_at(&mut self, j: usize)
        requires
            old(self).wf(),
            j < old(self)@.len(),
        ensures
            final(self).wf(),
            as_map(final(self)@) == as_map(old(self)@).remove(old(self)@[j as int].name),
    {
        let ghost s_old = self@;
        let ghost pre = s_old.subrange(0, j as int);
        let ghost x = s_old[j as int];
        let ghost suf = s_old.subrange(j + 1, s_old.len() as int);
        proof {
            assert(s_old =~= pre + seq![x] + suf);
            assert forall|k: int| 0 <= k < suf.len() implies (#[trigger] suf[k]).name != x.name by {
                assert(suf[k] == s_old[j + 1 + k]);
                assert(lex_lt(x.name, s_old[j + 1 + k].name));
                lemma_lex_trichotomy(x.name, s_old[j + 1 + k].name);
            }
            assert forall|k: int| 0 <= k < pre.len() implies (#[trigger] pre[k]).name != x.name by {
                assert(pre[k] == s_old[k]);
                assert(lex_lt(s_old[k].name, x.name));
                lemma_lex_trichotomy(s_old[k].name, x.name);
            }
            lemma_as_map_remove_mid(pre, suf, x);
        }
        let _ = self.entries.remove(j);
        proof {
            assert(self@ =~= pre + suf);
            assert forall|a: int, b: int| 0 <= a < b < self@.len() implies lex_lt(
                (#[trigger] self@[a]).name,
                (#[trigger] self@[b]).name,
            ) by {
                let oa = if a < j { a } else { a + 1 };
                let ob = if b < j { b } else { b + 1 };
                assert(self@[a] == s_old[oa]);
                assert(self@[b] == s_old[ob]);
            }
        }
    }

    /// Sets the `to` side of the record at a position, leaving its name,
    /// `from` side and source as they stand.
    pub fn set_to_at(&mut self, j: usize, v: Version)
        requires
            old(self).wf(),
            j < old(self)@.len(),
        ensures
            final(self).wf(),
            as_map(final(self)@) == as_map(old(self)@).insert(
                old(self)@[j as int].name,
                ChangeModel {
                    name: old(self)@[j as int].name,
                    from: old(self)@[j as int].from,
                    to: v@,
                    source: old(self)@[j as int].source,
                },
            ),
    {
        let ghost s_old = self@;
        let ghost pre = s_old.subrange(0, j as int);
        let ghost x = s_old[j as int];
        let ghost suf = s_old.subrange(j + 1, s_old.len() as int);
        let e = &self.entries[j];
        let ch = Changes {
            name: e.name.clone(),
            from: e.from.clone(),
            to: v,
            source: clone_opt_string(&e.source),
        };
        proof {
            assert(ch@ == ChangeModel { name: x.name, from: x.from, to: ch@.to, source: x.source });
            assert(s_old =~= pre + seq![x] + suf);
            assert forall|k: int| 0 <= k < suf.len() implies (#[trigger] suf[k]).name
                != ch@.name by {
                assert(suf[k] == s_old[j + 1 + k]);
                assert(lex_lt(x.name, s_old[j + 1 + k].name));
                lemma_lex_trichotomy(x.name, s_old[j + 1 + k].name);
            }
            lemma_as_map_replace_mid(pre, suf, x, ch@);
        }
        self.entries.set(j, ch);
        proof {
            assert(self@ =~= pre + seq![ch@] + suf);
            assert(as_map(self@) == as_map(s_old).insert(ch@.name, ch@));
            assert_sorted_after_splice(s_old, pre, suf, ch@, j as int);
        }
    }

    /// Whether the `from` side of the record at a position is exactly the
    /// given version.
    pub fn from_is_at(&self, j: usize, ver: &str) -> (r: bool)
        requires
            j < self@.len(),
        ensures
            r == (self@[j as int].from == VersionModel::At(ver@)),
    {
        match &self.entries[j].from {
            Version::At(s) => str_eq(s.as_str(), ver),
            Version::New => false,
            Version::Removed => false,
        }
    }
}

/// Replacing the record at a position by one under the same name keeps the
/// sequence sorted.
proof fn assert_sorted_after_splice(
    s_old: Seq<ChangeModel>,
    pre: Seq<ChangeModel>,
    suf: Seq<ChangeModel>,
    ch: ChangeModel,
    j: int,
)
    requires
        names_sorted(s_old),
        0 <= j < s_old.len(),
        pre == s_old.subrange(0, j),
        suf == s_old.subrange(j + 1, s_old.len() as int),
        ch.name == s_old[j].name,
    ensures
        names_sorted(pre + seq![ch] + suf),
{
    let s = pre + seq![ch] + suf;
    assert forall|a: int, b: int| 0 <= a < b < s.len() implies lex_lt(
        (#[trigger] s[a]).name,
        (#[trigger] s[b]).name,
    ) by {
        assert(s[a].name == s_old[a].name);
        assert(s[b].name == s_old[b].name);
    }
}

/// Inserting a record between the entries below it and those above it keeps
/// the sequence sorted.
proof fn assert_sorted_after_insert(
    s_old: Seq<ChangeModel>,
    pre: Seq<ChangeModel>,
    suf: Seq<ChangeModel>,
    ch: ChangeModel,
    j: int,
)
    requires
        names_sorted(s_old),
        0 <= j <= s_old.len(),
        pre == s_old.subrange(0, j),
        suf == s_old.subrange(j, s_old.len() as int),
        forall|k: int| 0 <= k < j ==> lex_lt((#[trigger] s_old[k]).name, ch.name),
        j < s_old.len() ==> lex_lt(ch.name, s_old[j].name),
    ensures
        names_sorted(pre + seq![ch] + suf),
{
    let s = pre + seq![ch] + suf;
    assert forall|a: int, b: int| 0 <= a < b < s.len() implies lex_lt(
        (#[trigger] s[a]).name,
        (#[trigger] s[b]).name,
    ) by {
        if a < j {
            assert(s[a] == s_old[a]);
        } else if a == j {
            assert(s[a] == ch);
        } else {
            assert(s[a] == s_old[a - 1]);
        }
        if b < j {
            assert(s[b] == s_old[b]);
        } else if b == j {
            assert(s[b] == ch);
        } else {
            assert(s[b] == s_old[b - 1]);
        }
        if a == j && b > j {
            assert(lex_lt(ch.name, s_old[j].name));
            if b - 1 > j {
                assert(lex_lt(s_old[j].name, s_old[b - 1].name));
                crate::strutil::lemma_lex_trans(ch.name, s_old[j].name, s_old[b - 1].name);
            }
        }
    }
}

/// Computes the per-package changes between two lock files: an
/// alphabetically ordered record set whose mapping is exactly
/// `spec_diff(from@, to@)`.
pub fn diff(from: &LockSnapshot, to: &LockSnapshot) -> (d: Diff)
    ensures
        d.wf(),
        as_map(d@) == spec_diff(from@, to@),
{
    let mut d = Diff::new();
    let n = from.packages.len();
    let mut i: usize = 0;
    while i < n
        invariant
            i <= n,
            n == from.packages@.len(),
            d.wf(),
            as_map(d@) == diff_after_from(from@.subrange(0, i as int)),
        decreases n - i,
    {
        let ch = Changes::from_old(&from.packages[i]);
        proof {
            let prefix = from@.subrange(0, i as int);
            let prefix1 = from@.subrange(0, i + 1 as int);
            assert(from@[i as int] == from.packages@[i as int]@);
            assert(prefix1 =~= prefix.push(from@[i as int]));
            assert(prefix1.drop_last() =~= prefix);
            assert(prefix1.last() == from@[i as int]);
            assert(diff_after_from(prefix1) == diff_after_from(prefix).insert(
                from@[i as int].name,
                change_from_old(from@[i as int]),
            ));
        }
        d.insert_entry(ch);
        i = i + 1;
    }
    assert(from@.subrange(0, n as int) =~= from@);
    let ghost m0 = diff_after_from(from@);
    let nt = to.packages.len();
    let mut t: usize = 0;
    while t < nt
        invariant
            t <= nt,
            nt == to.packages@.len(),
            d.wf(),
            as_map(d@) == diff_after_to(m0, to@.subrange(0, t as int)),
        decreases nt - t,
    {
        let pkg = &to.packages[t];
        let ghost p = to@[t as int];
        let ghost m_cur = as_map(d@);
        proof {
            assert(to@[t as int] == to.packages@[t as int]@);
            let prefix = to@.subrange(0, t as int);
            let prefix1 = to@.subrange(0, t + 1 as int);
            assert(prefix1 =~= prefix.push(p));
            assert(prefix1.drop_last() =~= prefix);
            assert(prefix1.last() == p);
            assert(diff_after_to(m0, prefix1) == diff_step(diff_after_to(m0, prefix), p));
        }
        match d.find(pkg.name.as_str()) {
            Some(j) => {
                proof {
                    lemma_as_map_index(d@, j as int);
                    assert(m_cur.contains_key(p.name));
                    assert(m_cur[p.name] == d@[j as int]);
                }
                if d.from_is_at(j, pkg.version.as_str()) {
                    d.remove_entry_at(j);
                } else {
                    d.set_to_at(j, Version::At(pkg.version.clone()));
                }
            },
            None => {
                proof {
                    lemma_as_map_contains(d@, p.name);
                    assert(!m_cur.contains_key(p.name));
                }
                let ch = Changes::from_new(pkg);
                d.insert_entry(ch);
            },
        }
        t = t + 1;
    }
    assert(to@.subrange(0, nt as int) =~= to@);
    d
}

/// Diffing a lock file against itself yields no changes.
pub proof fn lemma_diff_identity(l: Seq<PackageModel>)
    requires
        unique_names(l),
    ensures
        spec_diff(l, l) =~= Map::<Seq<char>, ChangeModel>::empty(),
{
    assert forall|n: Seq<char>| !(#[trigger] spec_diff(l, l).contains_key(n)) by {
        lemma_diff_at(l, l, n);
    }
}

/// For a name present on both sides: the diff omits it exactly when the two
/// versions are equal, and otherwise records both versions.
pub proof fn lemma_diff_antisymmetry(a: Seq<PackageModel>, b: Seq<PackageModel>, k: Seq<char>)
    requires
        unique_names(b),
        lookup(a, k) is Some,
        lookup(b, k) is Some,
    ensures
        lookup(a, k).unwrap().version == lookup(b, k).unwrap().version ==> !spec_diff(
            a,
            b,
        ).contains_key(k),
        lookup(a, k).unwrap().version != lookup(b, k).unwrap().version ==> spec_diff(
            a,
            b,
        ).contains_key(k) && spec_diff(a, b)[k].from == VersionModel::At(
            lookup(a, k).unwrap().version,
        ) && spec_diff(a, b)[k].to == VersionModel::At(lookup(b, k).unwrap().version),
{
    lemma_diff_at(a, b, k);
}

/// A name present on exactly one side is always in the diff, marked `New`
/// or `Removed` on the side it is absent from.
pub proof fn lemma_diff_coverage(a: Seq<PackageModel>, b: Seq<PackageModel>, k: Seq<char>)
    requires
        unique_names(b),
        (lookup(a, k) is Some) != (lookup(b, k) is Some),
    ensures
        spec_diff(a, b).contains_key(k),
        lookup(b, k) is None ==> spec_diff(a, b)[k].from == VersionModel::At(
            lookup(a, k).unwrap().version,
        ) && spec_diff(a, b)[k].to == VersionModel::Removed,
        lookup(a, k) is None ==> spec_diff(a, b)[k].from == VersionModel::New && spec_diff(a, b)[k].to
            == VersionModel::At(lookup(b, k).unwrap().version),
{
    lemma_diff_at(a, b, k);
}

/// The shape every change record has: the `from` side is `New` or a version,
/// the `to` side is `Removed` or a version.
pub open spec fn change_shape(c: ChangeModel) -> bool {
    (c.from is New || c.from is At) && (c.to is Removed || c.to is At)
}

/// Every value of the mapping has the change-record shape.
pub open spec fn shaped_map(m: Map<Seq<char>, ChangeModel>) -> bool {
    forall|k: Seq<char>| #[trigger] m.contains_key(k) ==> change_shape(m[k])
}

proof fn lemma_after_from_shape(pkgs: Seq<PackageModel>)
    ensures
        shaped_map(diff_after_from(pkgs)),
    decreases pkgs.len(),
{
    if pkgs.len() > 0 {
        lemma_after_from_shape(pkgs.drop_last());
    }
}

proof fn lemma_after_to_shape(m: Map<Seq<char>, ChangeModel>, pkgs: Seq<PackageModel>)
    requires
        shaped_map(m),
    ensures
        shaped_map(diff_after_to(m, pkgs)),
    decreases pkgs.len(),
{
    if pkgs.len() > 0 {
        lemma_after_to_shape(m, pkgs.drop_last());
    }
}

/// Every record the diff holds pairs `New` or a version with `Removed` or a
/// version.
pub proof fn lemma_diff_shape(from: Seq<PackageModel>, to: Seq<PackageModel>)
    ensures
        shaped_map(spec_diff(from, to)),
{
    lemma_after_from_shape(from);
    lemma_after_to_shape(diff_after_from(from), to);
}

/// With sorted names, the record set and its mapping hold the same changes:
/// each record is the mapping's value at its name, and every key is some
/// record's name.
pub proof fn lemma_diff_represents(s: Seq<ChangeModel>)
    requires
        names_sorted(s),
    ensures
        forall|i: int|
            0 <= i < s.len() ==> as_map(s).contains_key((#[trigger] s[i]).name) && as_map(s)[s[i].name]
                == s[i],
        forall|n: Seq<char>|
            #[trigger] as_map(s).contains_key(n) ==> exists|i: int|
                0 <= i < s.len() && (#[trigger] s[i]).name == n,
{
    assert forall|i: int| 0 <= i < s.len() implies as_map(s).contains_key((#[trigger] s[i]).name)
        && as_map(s)[s[i].name] == s[i] by {
        lemma_as_map_index(s, i);
    }
    assert forall|n: Seq<char>| #[trigger] as_map(s).contains_key(n) implies exists|i: int|
        0 <= i < s.len() && (#[trigger] s[i]).name == n by {
        lemma_as_map_contains(s, n);
    }
}

} // verus!
