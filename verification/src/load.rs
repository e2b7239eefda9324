use vstd::prelude::*;

verus! {

use vstd::string::StrSliceExecFns;
use vstd::string::StringExecFns;
use crate::strutil::find_char;
use crate::strutil::str_eq;
use crate::strutil::substr;
use crate::lockfile::LockSnapshot;
use crate::lockfile::lock_parse_of;

/// A retrieval strategy for a lock file: a local file, `git show`, or
/// `hg cat`.
#[derive(Clone, Copy, PartialEq, Eq, Structural, Debug)]
pub enum Source {
    File,
    Git,
    Mercurial,
}

/// The candidate strategies in their default priority order.
pub open spec fn all_sources() -> Seq<Source> {
    seq![Source::File, Source::Git, Source::Mercurial]
}

/// The strategy's name, as the command line and error messages use it.
pub open spec fn source_name(s: Source) -> Seq<char> {
    match s {
        Source::File => "file"@,
        Source::Git => "git"@,
        Source::Mercurial => "hg"@,
    }
}

impl Source {
    /// Every strategy, in the default priority order: file first, then Git,
    /// then Mercurial.
    pub fn all() -> (v: Vec<Source>)
        ensures
            v@ == all_sources(),
    {
        let mut v: Vec<Source> = Vec::new();
        v.push(Source::File);
        v.push(Source::Git);
        v.push(Source::Mercurial);
        assert(v@ =~= all_sources());
        v
    }

    /// The strategy's name: `file`, `git`, or `hg`.
    pub fn as_str(&self) -> (r: &'static str)
        ensures
            r@ == source_name(*self),
    {
        match self {
            Source::File => "file",
            Source::Git => "git",
            Source::Mercurial => "hg",
        }
    }

    /// The strategy a name picks, if the name is one of `file`, `git`, `hg`.
    pub fn from_str(s: &str) -> (r: Option<Source>)
        ensures
            r == (if s@ == "file"@ {
                Some(Source::File)
            } else if s@ == "git"@ {
                Some(Source::Git)
            } else if s@ == "hg"@ {
                Some(Source::Mercurial)
            } else {
                None::<Source>
            }),
    {
        if str_eq(s, "file") {
            Some(Source::File)
        } else if str_eq(s, "git") {
            Some(Source::Git)
        } else if str_eq(s, "hg") {
            Some(Source::Mercurial)
        } else {
            None
        }
    }
}

/// The position of the first occurrence of `c` in `s`, or a negative value
/// when `c` does not occur.
pub open spec fn first_char_at(s: Seq<char>, c: char) -> int
    decreases s.len(),
{
    if s.len() == 0 {
        -1
    } else if s[0] == c {
        0
    } else {
        let r = first_char_at(s.drop_first(), c);
        if r < 0 {
            -1
        } else {
            r + 1
        }
    }
}

/// `first_char_at` names the first occurrence: `c` stands there and nowhere
/// before; a negative result means `c` does not occur at all.
pub proof fn lemma_first_char_at(s: Seq<char>, c: char)
    ensures
        first_char_at(s, c) < 0 ==> (forall|j: int| 0 <= j < s.len() ==> s[j] != c),
        first_char_at(s, c) >= 0 ==> {
            let i = first_char_at(s, c);
            &&& i < s.len()
            &&& s[i] == c
            &&& forall|j: int| 0 <= j < i ==> s[j] != c
        },
    decreases s.len(),
{
    if s.len() > 0 && s[0] != c {
        lemma_first_char_at(s.drop_first(), c);
        let r = first_char_at(s.drop_first(), c);
        if r < 0 {
            assert forall|j: int| 0 <= j < s.len() implies s[j] != c by {
                if j > 0 {
                    assert(s.drop_first()[j - 1] != c);
                }
            }
        } else {
            assert(s[r + 1] == s.drop_first()[r]);
            assert forall|j: int| 0 <= j < r + 1 implies s[j] != c by {
                if j > 0 {
                    assert(s.drop_first()[j - 1] != c);
                }
            }
        }
    }
}

/// Finds the first colon and reports its position as `first_char_at` does.
fn find_colon(s: &str) -> (r: Option<usize>)
    ensures
        match r {
            Some(i) => i == first_char_at(s@, ':') && 0 <= i < s@.len(),
            None => first_char_at(s@, ':') < 0,
        },
{
    proof {
        lemma_first_char_at(s@, ':');
    }
    match find_char(s, ':') {
        Some(i) => {
            proof {
                let f = first_char_at(s@, ':');
                if f < 0 {
                } else if f < i {
                    assert(s@[f] == ':');
                } else if i < f {
                    assert(s@[i as int] == ':');
                }
            }
            Some(i)
        },
        None => None,
    }
}

/// What `parse_source_opt` yields: a pinned strategy with the payload after
/// the colon when the text before the first colon names a strategy, else
/// every strategy and the whole text.
pub open spec fn spec_parse_source_opt(opt: Seq<char>) -> (Seq<Source>, Seq<char>) {
    let i = first_char_at(opt, ':');
    if i < 0 {
        (all_sources(), opt)
    } else {
        let head = opt.subrange(0, i);
        let rest = opt.subrange(i + 1, opt.len() as int);
        if head == "file"@ {
            (seq![Source::File], rest)
        } else if head == "git"@ {
            (seq![Source::Git], rest)
        } else if head == "hg"@ {
            (seq![Source::Mercurial], rest)
        } else {
            (all_sources(), opt)
        }
    }
}

/// Splits a side's option into the strategies to try and the fileish to hand
/// them: `strategy:payload` pins one strategy, anything else tries them all.
pub fn parse_source_opt(opt: &str) -> (r: (Vec<Source>, String))
    ensures
        r.0@ == spec_parse_source_opt(opt@).0,
        r.1@ == spec_parse_source_opt(opt@).1,
{
    match find_colon(opt) {
        None => (Source::all(), String::from_str(opt)),
        Some(i) => {
            let n = opt.unicode_len();
            let head = opt.substring_char(0, i);
            let rest = substr(opt, i + 1, n);
            match Source::from_str(head) {
                Some(src) => {
                    let mut v: Vec<Source> = Vec::new();
                    v.push(src);
                    proof {
                        if src == Source::File {
                            assert(v@ =~= seq![Source::File]);
                        } else if src == Source::Git {
                            assert(v@ =~= seq![Source::Git]);
                        } else {
                            assert(v@ =~= seq![Source::Mercurial]);
                        }
                    }
                    (v, rest)
                },
                None => (Source::all(), String::from_str(opt)),
            }
        },
    }
}

/// One thing the resolver asks its caller to do: read a file, or run a
/// program with arguments and capture its output.
#[derive(Debug)]
pub enum Invocation {
    ReadFile { path: String },
    Run { program: String, args: Vec<String> },
}

/// Mathematical model of an invocation.
pub enum InvocationModel {
    ReadFile(Seq<char>),
    Run(Seq<char>, Seq<Seq<char>>),
}

impl View for Invocation {
    type V = InvocationModel;

    open spec fn view(&self) -> InvocationModel {
        match self {
            Invocation::ReadFile { path } => InvocationModel::ReadFile(path@),
            Invocation::Run { program, args } => InvocationModel::Run(
                program@,
                args@.map_values(|a: String| a@),
            ),
        }
    }
}

/// The base prefix, normalized: `.` for an empty prefix, otherwise the
/// prefix with one trailing path separator trimmed (`/`, the separator of
/// the platforms this library is built for).
pub open spec fn norm_base(base: Seq<char>) -> Seq<char> {
    if base.len() == 0 {
        "."@
    } else if base.last() == '/' {
        base.drop_last()
    } else {
        base
    }
}

/// `base/Cargo.lock`: the default lock-file path under a normalized base.
pub open spec fn lock_path(base: Seq<char>) -> Seq<char> {
    base + "/"@ + "Cargo.lock"@
}

/// The path the file strategy reads: `base/fileish`, or `base/Cargo.lock`
/// when the fileish is empty.
pub open spec fn file_target(fileish: Seq<char>, base: Seq<char>) -> Seq<char> {
    if fileish.len() == 0 {
        lock_path(base)
    } else {
        base + "/"@ + fileish
    }
}

/// The revspec `git show` is handed: the fileish verbatim when it already
/// holds a colon, else `fileish:base/Cargo.lock`.
pub open spec fn git_revspec(fileish: Seq<char>, base: Seq<char>) -> Seq<char> {
    if first_char_at(fileish, ':') >= 0 {
        fileish
    } else {
        fileish + ":"@ + lock_path(base)
    }
}

/// The revision `hg cat -r` is handed: `.` for an empty fileish or the Git
/// default `HEAD`, the part before the first colon of a `ref:path` form,
/// else the fileish itself.
pub open spec fn hg_rev(fileish: Seq<char>) -> Seq<char> {
    if fileish.len() == 0 || fileish == "HEAD"@ {
        "."@
    } else if first_char_at(fileish, ':') >= 0 {
        fileish.subrange(0, first_char_at(fileish, ':'))
    } else {
        fileish
    }
}

/// The path `hg cat` is handed: the part after the first colon of a
/// `ref:path` form, verbatim and without the base, else `base/Cargo.lock`.
pub open spec fn hg_path(fileish: Seq<char>, base: Seq<char>) -> Seq<char> {
    if fileish.len() == 0 || fileish == "HEAD"@ {
        lock_path(base)
    } else if first_char_at(fileish, ':') >= 0 {
        fileish.subrange(first_char_at(fileish, ':') + 1, fileish.len() as int)
    } else {
        lock_path(base)
    }
}

/// What a strategy does for a fileish under a normalized base: the file
/// strategy reads `base/fileish`; Git runs `git show <revspec>`; Mercurial
/// runs `hg cat -r <rev> <path>`.
pub open spec fn plan(src: Source, fileish: Seq<char>, base: Seq<char>) -> InvocationModel {
    match src {
        Source::File => InvocationModel::ReadFile(file_target(fileish, base)),
        Source::Git => InvocationModel::Run("git"@, seq!["show"@, git_revspec(fileish, base)]),
        Source::Mercurial => InvocationModel::Run(
            "hg"@,
            seq!["cat"@, "-r"@, hg_rev(fileish), hg_path(fileish, base)],
        ),
    }
}

/// `base/Cargo.lock` as an owned string.
fn lock_path_exec(base: &str) -> (r: String)
    ensures
        r@ == lock_path(base@),
{
    let mut s = String::from_str(base);
    s.append("/");
    s.append("Cargo.lock");
    s
}

/// The file strategy's target path as an owned string.
fn file_target_exec(fileish: &str, base: &str) -> (r: String)
    ensures
        r@ == file_target(fileish@, base@),
{
    if fileish.is_empty() {
        lock_path_exec(base)
    } else {
        let mut s = String::from_str(base);
        s.append("/");
        s.append(fileish);
        s
    }
}

/// The Git revspec as an owned string.
fn git_revspec_exec(fileish: &str, base: &str) -> (r: String)
    ensures
        r@ == git_revspec(fileish@, base@),
{
    match find_colon(fileish) {
        Some(_) => String::from_str(fileish),
        None => {
            let mut s = String::from_str(fileish);
            s.append(":");
            let tail = lock_path_exec(base);
            s.append(tail.as_str());
            s
        },
    }
}

/// The Mercurial revision and path as owned strings.
fn hg_rev_path_exec(fileish: &str, base: &str) -> (r: (String, String))
    ensures
        r.0@ == hg_rev(fileish@),
        r.1@ == hg_path(fileish@, base@),
{
    if fileish.is_empty() || str_eq(fileish, "HEAD") {
        (String::from_str("."), lock_path_exec(base))
    } else {
        match find_colon(fileish) {
            Some(i) => {
                let n = fileish.unicode_len();
                (substr(fileish, 0, i), substr(fileish, i + 1, n))
            },
            None => (String::from_str(fileish), lock_path_exec(base)),
        }
    }
}

/// Builds the invocation a strategy plans for a fileish under a normalized
/// base.
pub fn plan_invocation(src: Source, fileish: &str, base: &str) -> (inv: Invocation)
    ensures
        inv@ == plan(src, fileish@, base@),
{
    match src {
        Source::File => Invocation::ReadFile { path: file_target_exec(fileish, base) },
        Source::Git => {
            let mut args: Vec<String> = Vec::new();
            args.push(String::from_str("show"));
            args.push(git_revspec_exec(fileish, base));
            proof {
                assert(args@.map_values(|a: String| a@) =~= seq![
                    "show"@,
                    git_revspec(fileish@, base@),
                ]);
            }
            Invocation::Run { program: String::from_str("git"), args }
        },
        Source::Mercurial => {
            let (rev, path) = hg_rev_path_exec(fileish, base);
            let mut args: Vec<String> = Vec::new();
            args.push(String::from_str("cat"));
            args.push(String::from_str("-r"));
            args.push(rev);
            args.push(path);
            proof {
                assert(args@.map_values(|a: String| a@) =~= seq![
                    "cat"@,
                    "-r"@,
                    hg_rev(fileish@),
                    hg_path(fileish@, base@),
                ]);
            }
            Invocation::Run { program: String::from_str("hg"), args }
        },
    }
}

/// The aggregated failure text: one line per strategy that failed, in the
/// order tried, each as `\n  <strategy>: <message>`.
pub open spec fn errors_text(errs: Seq<(Source, Seq<char>)>) -> Seq<char>
    decreases errs.len(),
{
    if errs.len() == 0 {
        Seq::empty()
    } else {
        "\n  "@ + source_name(errs[0].0) + ": "@ + errs[0].1 + errors_text(errs.drop_first())
    }
}

/// The failure text distributes over appending one more error.
proof fn lemma_errors_text_snoc(errs: Seq<(Source, Seq<char>)>, e: (Source, Seq<char>))
    ensures
        errors_text(errs.push(e)) =~= errors_text(errs) + ("\n  "@ + source_name(e.0) + ": "@
            + e.1),
    decreases errs.len(),
{
    if errs.len() == 0 {
        assert(errs.push(e)[0] == e);
        assert(errs.push(e).drop_first() =~= Seq::<(Source, Seq<char>)>::empty());
        assert(errors_text(errs.push(e).drop_first()) == Seq::<char>::empty());
        assert(errors_text(errs) == Seq::<char>::empty());
    } else {
        assert(errs.push(e)[0] == errs[0]);
        assert(errs.push(e).drop_first() == errs.drop_first().push(e)) by {
            assert(errs.push(e).drop_first() =~= errs.drop_first().push(e));
        }
        lemma_errors_text_snoc(errs.drop_first(), e);
        assert(errors_text(errs.push(e)) == "\n  "@ + source_name(errs[0].0) + ": "@ + errs[0].1
            + errors_text(errs.drop_first().push(e)));
    }
}

/// What one resolver step reports: the lock file on success, failure of the
/// whole walk once every strategy failed, or more strategies to try.
#[derive(Debug)]
pub enum LoadStep {
    Done(LockSnapshot),
    Failed,
    Pending,
}

/// The resolver's walk over the candidate strategies: it plans one
/// invocation at a time, is handed each outcome, and stops at the first
/// strategy whose text parses; failures are collected per strategy.
#[derive(Debug)]
pub struct Loader {
    pub sources: Vec<Source>,
    pub idx: usize,
    pub fileish: String,
    pub base: String,
    pub errors: Vec<(Source, String)>,
}

impl Loader {
    /// The failures recorded so far, each with its strategy.
    pub open spec fn errs(&self) -> Seq<(Source, Seq<char>)> {
        self.errors@.map_values(|e: (Source, String)| (e.0, e.1@))
    }

    /// One failure stands recorded for each strategy already tried.
    pub open spec fn wf(&self) -> bool {
        self.idx <= self.sources@.len() && self.errors@.len() == self.idx
    }

    /// Starts a walk: the strategies to try in order, the fileish, and the
    /// base prefix, which is normalized here.
    pub fn new(sources: Vec<Source>, fileish: String, base: &str) -> (l: Loader)
        ensures
            l.wf(),
            l.sources == sources,
            l.idx == 0,
            l.fileish == fileish,
            l.base@ == norm_base(base@),
            l.errs() =~= Seq::<(Source, Seq<char>)>::empty(),
    {
        let n = base.unicode_len();
        let nb: String = if n == 0 {
            String::from_str(".")
        } else if base.get_char(n - 1) == '/' {
            proof {
                assert(base@.subrange(0, n - 1 as int) =~= base@.drop_last());
            }
            substr(base, 0, n - 1)
        } else {
            String::from_str(base)
        };
        let l = Loader { sources, idx: 0, fileish, base: nb, errors: Vec::new() };
        assert(l.errs() =~= Seq::<(Source, Seq<char>)>::empty());
        l
    }

    /// The invocation of the strategy now up, or nothing when every strategy
    /// has been tried.
    pub fn next_invocation(&self) -> (r: Option<Invocation>)
        requires
            self.wf(),
        ensures
            match r {
                Some(inv) => self.idx < self.sources@.len() && inv@ == plan(
                    self.sources@[self.idx as int],
                    self.fileish@,
                    self.base@,
                ),
                None => self.idx == self.sources@.len(),
            },
    {
        if self.idx < self.sources.len() {
            Some(plan_invocation(self.sources[self.idx], self.fileish.as_str(), self.base.as_str()))
        } else {
            None
        }
    }

    /// Takes the outcome of the planned invocation: the file's or command's
    /// text, or a failure message (a read error, or the command's trimmed
    /// stderr). Text that parses ends the walk with the lock file; anything
    /// else records the failure under the strategy and moves on, failing the
    /// walk once no strategy is left. A handed-in failure message is recorded
    /// verbatim; for text that does not parse, the recorded message is the
    /// lock-file grammar's diagnostic, which the contract leaves open.
    pub fn feed(&mut self, outcome: Result<String, String>) -> (r: LoadStep)
        requires
            old(self).wf(),
            old(self).idx < old(self).sources@.len(),
        ensures
            final(self).wf(),
            final(self).sources == old(self).sources,
            final(self).fileish == old(self).fileish,
            final(self).base == old(self).base,
            (r is Done) == (outcome is Ok && lock_parse_of(outcome->Ok_0@) is Some),
            r matches LoadStep::Done(lf) ==> Some(lf@) == lock_parse_of(outcome->Ok_0@)
                && *final(self) == *old(self),
            !(r is Done) ==> {
                &&& final(self).idx == old(self).idx + 1
                &&& final(self).errs().len() == old(self).errs().len() + 1
                &&& final(self).errs().subrange(0, old(self).errs().len() as int) == old(
                    self,
                ).errs()
                &&& final(self).errs().last().0 == old(self).sources@[old(self).idx as int]
            },
            outcome is Err ==> final(self).errs().last().1 == outcome->Err_0@,
            (r is Failed) == (!(r is Done) && old(self).idx + 1 == old(self).sources@.len()),
            (r is Pending) == (!(r is Done) && old(self).idx + 1 < old(self).sources@.len()),
    {
        let n = self.sources.len();
        let src = self.sources[self.idx];
        let ghost before = self.errs();
        match outcome {
            Ok(text) => {
                match LockSnapshot::parse(text.as_str()) {
                    Ok(lf) => {
                        return LoadStep::Done(lf);
                    },
                    Err(msg) => {
                        self.errors.push((src, msg));
                    },
                }
            },
            Err(msg) => {
                self.errors.push((src, msg));
            },
        }
        proof {
            assert(self.errs() =~= before.push(
                (src, self.errors@.last().1@),
            ));
            assert(self.errs().subrange(0, before.len() as int) =~= before);
        }
        assert(self.idx < n);
        self.idx = self.idx + 1;
        if self.idx == n {
            LoadStep::Failed
        } else {
            LoadStep::Pending
        }
    }

    /// Renders the aggregated failure: one line per strategy tried, in
    /// order, each as two spaces, the strategy's name, a colon and its
    /// message, after a newline.
    pub fn render_errors(&self) -> (r: String)
        ensures
            r@ == errors_text(self.errs()),
    {
        let mut out = String::new();
        let n = self.errors.len();
        let mut i: usize = 0;
        while i < n
            invariant
                i <= n,
                n == self.errors@.len(),
                out@ == errors_text(self.errs().subrange(0, i as int)),
            decreases n - i,
        {
            let e = &self.errors[i];
            out.append("\n  ");
            out.append(e.0.as_str());
            out.append(": ");
            out.append(e.1.as_str());
            proof {
                let pre = self.errs().subrange(0, i as int);
                lemma_errors_text_snoc(pre, self.errs()[i as int]);
                assert(self.errs().subrange(0, i + 1 as int) =~= pre.push(self.errs()[i as int]));
                assert(self.errs()[i as int] == (self.errors@[i as int].0, self.errors@[i as int].1@));
                assert(out@ =~= errors_text(self.errs().subrange(0, i + 1 as int)));
            }
            i = i + 1;
        }
        assert(self.errs().subrange(0, n as int) =~= self.errs());
        out
    }
}

/// The file strategy always reads; only the other strategies run a command.
/// With the default order the file read is planned first, so when it
/// succeeds no command is ever asked for.
pub proof fn lemma_resolver_precedence(fileish: Seq<char>, base: Seq<char>)
    ensures
        plan(all_sources()[0], fileish, base) == InvocationModel::ReadFile(
            file_target(fileish, base),
        ),
        forall|s: Source| (#[trigger] plan(s, fileish, base)) is Run <==> s != Source::File,
{
    assert forall|s: Source| (#[trigger] plan(s, fileish, base)) is Run <==> s
        != Source::File by {
        match s {
            Source::File => {},
            Source::Git => {},
            Source::Mercurial => {},
        }
    }
}

} // verus!
