//! The projection of the analysis that resolving a site reads: one record per
//! monitor-enter site, and the lookup of a source line in it.
//!
//! Sites are bucketed by the base name of their source file, so a query scans one
//! file's records rather than the whole program.

use crate::dex::acquire::{Acquisition, AcquisitionV};
use crate::dict;
use crate::dict::Dict;
use crate::names;
use crate::names::Names;
use crate::text;
use crate::values;
use crate::values::Dup;
use vstd::prelude::*;

verus! {

/// A monitor-enter site: its source file, its method, its line, and the canonical lock.
#[derive(Debug)]
pub struct Site {
    /// The source file below the source root, such as `com/example/Foo.java`.
    pub relpath: String,
    pub method: String,
    pub line: Option<u32>,
    pub lock: String,
}

/// What a site holds.
#[verifier::ext_equal]
pub struct SiteV {
    pub relpath: Seq<char>,
    pub method: Seq<char>,
    pub line: Option<u32>,
    pub lock: Seq<char>,
}

impl DeepView for Site {
    type V = SiteV;

    open spec fn deep_view(&self) -> SiteV {
        SiteV {
            relpath: self.relpath@,
            method: self.method@,
            line: self.line,
            lock: self.lock@,
        }
    }
}

/// Every site of a build that has a name for its lock.
#[derive(Debug)]
pub struct ResolveIndex {
    pub version: u32,
    pub sites: Vec<Site>,
}

/// The text with `/` for `.`.
pub open spec fn slashed(s: Seq<char>) -> Seq<char> {
    Seq::new(
        s.len(),
        |i: int|
            if s[i] == '.' {
                '/'
            } else {
                s[i]
            },
    )
}

/// The directory of a class's source file: the path of its package.
pub open spec fn package_path(class: Seq<char>) -> Seq<char> {
    match text::last_index(class, '.') {
        None => Seq::empty(),
        Some(i) => slashed(class.take(i + 1)),
    }
}

/// The name of a class without its package.
pub open spec fn simple_name(class: Seq<char>) -> Seq<char> {
    match text::last_index(class, '.') {
        None => class,
        Some(i) => class.skip(i + 1),
    }
}

/// The name before its first `$` from the `k`th character on.
pub open spec fn before_dollar(name: Seq<char>, k: int) -> Seq<char>
    decreases name.len() - k,
{
    if k >= name.len() {
        name
    } else if name[k] == '$' {
        name.take(k)
    } else {
        before_dollar(name, k + 1)
    }
}

/// The source file of an acquisition: that of its class, or without one the file that its
/// top-level class would be in, in the directory of its package.
pub open spec fn relpath(a: AcquisitionV) -> Seq<char> {
    match a.source_file {
        Some(f) => package_path(a.class) + f,
        None => package_path(a.class) + before_dollar(simple_name(a.class), 1) + ".java"@,
    }
}

/// The lock has a name: it did not escape the analysis.
pub open spec fn is_named(lock: Seq<char>) -> bool {
    !text::begins(lock, "?"@)
}

/// The sites of the acquisitions from the `k`th on whose locks have names, behind `acc`.
pub open spec fn sites_from(acqs: Seq<AcquisitionV>, k: int, acc: Seq<SiteV>) -> Seq<SiteV>
    decreases acqs.len() - k,
{
    if k >= acqs.len() {
        acc
    } else {
        sites_from(
            acqs,
            k + 1,
            if is_named(acqs[k].lock) {
                acc.push(
                    SiteV {
                        relpath: relpath(acqs[k]),
                        method: acqs[k].method,
                        line: acqs[k].line,
                        lock: acqs[k].lock,
                    },
                )
            } else {
                acc
            },
        )
    }
}

fn before_dollar_of(name: &str) -> (r: String)
    ensures
        r@ == before_dollar(name@, 1),
{
    let v = text::chars_of(name);
    let n = v.len();
    let mut k: usize = 1;
    while k < n
        invariant
            1 <= k,
            k <= n || n == 0,
            n == v@.len(),
            v@ == name@,
            before_dollar(name@, 1) == before_dollar(name@, k as int),
        decreases n - k,
    {
        if v[k] == '$' {
            proof {
                assert(v@.subrange(0, k as int) =~= name@.take(k as int));
            }
            return text::string_of(v.as_slice(), 0, k);
        }
        k += 1;
    }
    name.to_string()
}

fn relpath_of(a: &Acquisition) -> (r: String)
    ensures
        r@ == relpath(a.deep_view()),
{
    let v = text::chars_of(a.class.as_str());
    let n = v.len();
    let at = text::find_last(v.as_slice(), '.');
    let from = match at {
        None => 0,
        Some(i) => i + 1,
    };
    let mut dir = String::new();
    let mut k: usize = 0;
    proof {
        assert(slashed(v@.take(0)) =~= Seq::empty());
        assert(dir@ =~= slashed(v@.take(0)));
    }
    while k < from
        invariant
            k <= from <= n,
            n == v@.len(),
            dir@ == slashed(v@.take(k as int)),
        decreases from - k,
    {
        let ghost before = dir@;
        let c = if v[k] == '.' {
            '/'
        } else {
            v[k]
        };
        dir.push(c);
        k += 1;
        proof {
            assert(dir@ =~= slashed(v@.take(k as int)));
        }
    }
    proof {
        assert(dir@ == package_path(a.class@)) by {
            if from == 0 {
                assert(slashed(v@.take(0)) =~= Seq::empty());
            }
        }
        assert(v@.subrange(from as int, n as int) =~= simple_name(a.class@));
    }
    match &a.source_file {
        Some(f) => text::cat(dir.as_str(), f.as_str()),
        None => {
            let name = text::string_of(v.as_slice(), from, n);
            let top = before_dollar_of(name.as_str());
            text::cat3(dir.as_str(), top.as_str(), ".java")
        },
    }
}

/// The base name of a path.
pub open spec fn base(path: Seq<char>) -> Seq<char> {
    text::tail_of(path, '/')
}

/// The numbers of the sites in files of that base name.
pub open spec fn bucket(sites: Seq<SiteV>, name: Seq<char>) -> Seq<usize>
    decreases sites.len(),
{
    if sites.len() == 0 {
        Seq::empty()
    } else {
        let rest = bucket(sites.drop_last(), name);
        if base(sites.last().relpath) == name {
            rest.push((sites.len() - 1) as usize)
        } else {
            rest
        }
    }
}

/// How many lines the site is away; nothing without a line.
pub open spec fn distance(s: SiteV, line: i64) -> Option<int> {
    match s.line {
        None => None,
        Some(l) => Some(
            if l >= line {
                l - line
            } else {
                line - l
            },
        ),
    }
}

/// The least distance of the sites from the `k`th of the list on, and of `acc`.
pub open spec fn nearest_from(
    sites: Seq<SiteV>,
    list: Seq<usize>,
    line: i64,
    k: int,
    acc: Option<int>,
) -> Option<int>
    decreases list.len() - k,
{
    if k >= list.len() {
        acc
    } else {
        nearest_from(
            sites,
            list,
            line,
            k + 1,
            match (distance(sites[list[k] as int], line), acc) {
                (None, _) => acc,
                (Some(d), None) => Some(d),
                (Some(d), Some(a)) => Some(
                    if d < a {
                        d
                    } else {
                        a
                    },
                ),
            },
        )
    }
}

/// The least distance of the sites of the list.
pub open spec fn nearest(sites: Seq<SiteV>, list: Seq<usize>, line: i64) -> Option<int> {
    nearest_from(sites, list, line, 0, None)
}

/// The locks of the sites from the `k`th of the list on, each once, behind `acc`; only those
/// at that distance, if one is given.
pub open spec fn locks_from(
    sites: Seq<SiteV>,
    list: Seq<usize>,
    line: i64,
    at: Option<int>,
    k: int,
    acc: Seq<Seq<char>>,
) -> Seq<Seq<char>>
    decreases list.len() - k,
{
    if k >= list.len() {
        acc
    } else {
        let s = sites[list[k] as int];
        locks_from(
            sites,
            list,
            line,
            at,
            k + 1,
            if at is None || distance(s, line) == at {
                names::with(acc, s.lock)
            } else {
                acc
            },
        )
    }
}

/// The locks of the sites of the list that are that far away, each once.
pub open spec fn locks_at(sites: Seq<SiteV>, list: Seq<usize>, line: i64, d: int) -> Seq<
    Seq<char>,
> {
    locks_from(sites, list, line, Some(d), 0, Seq::empty())
}

/// The locks of the sites of the list, each once.
pub open spec fn all_locks(sites: Seq<SiteV>, list: Seq<usize>, line: i64) -> Seq<Seq<char>> {
    locks_from(sites, list, line, None, 0, Seq::empty())
}

/// The locks taken at a source line: those of the nearest sites of the file, where they are
/// within `fuzz` lines; else, with `if_unique`, the file's sole lock; else none.
pub open spec fn resolved(
    sites: Seq<SiteV>,
    file: Seq<char>,
    line: i64,
    fuzz: u32,
    if_unique: bool,
) -> Seq<Seq<char>> {
    let list = bucket(sites, base(file));
    let all = all_locks(sites, list, line);
    match nearest(sites, list, line) {
        Some(d) if d <= fuzz => locks_at(sites, list, line, d),
        _ => if if_unique && all.len() == 1 {
            all
        } else {
            Seq::empty()
        },
    }
}

impl ResolveIndex {
    /// The version of the projection.
    pub const VERSION: u32 = 1;

    /// The projection of the acquisitions: every site whose lock has a name.
    pub fn from_acquisitions(acqs: &Vec<Acquisition>) -> (r: ResolveIndex)
        ensures
            r.version == ResolveIndex::VERSION,
            r.sites.deep_view() == sites_from(acqs.deep_view(), 0, Seq::empty()),
    {
        let ghost av = acqs.deep_view();
        let mut sites: Vec<Site> = values::empty();
        let mut k: usize = 0;
        while k < acqs.len()
            invariant
                k <= acqs@.len(),
                av == acqs.deep_view(),
                sites_from(av, 0, Seq::empty()) == sites_from(av, k as int, sites.deep_view()),
            decreases acqs@.len() - k,
        {
            let a = &acqs[k];
            proof {
                assert(av[k as int] == a.deep_view());
            }
            if !text::starts_with(a.lock.as_str(), "?") {
                values::push(
                    &mut sites,
                    Site {
                        relpath: relpath_of(a),
                        method: a.method.dup(),
                        line: a.line,
                        lock: a.lock.dup(),
                    },
                );
            }
            k += 1;
        }
        ResolveIndex { version: ResolveIndex::VERSION, sites }
    }

    /// The lookup of source lines.
    pub fn prepare(&self) -> (r: Lookup<'_>)
        ensures
            r.wf(),
            r.sites() == self.sites.deep_view(),
    {
        let ghost sv = self.sites.deep_view();
        let mut files: Dict<Vec<usize>> = Dict::new();
        let mut k: usize = 0;
        proof {
            assert(sv.take(0) =~= Seq::empty());
        }
        while k < self.sites.len()
            invariant
                k <= self.sites@.len(),
                sv == self.sites.deep_view(),
                files.wf(),
                forall|name: Seq<char>| #[trigger]
                    dict::list_at(files@, name) == bucket(sv.take(k as int), name),
            decreases self.sites@.len() - k,
        {
            let ghost before = files@;
            let name = text::after_last(self.sites[k].relpath.as_str(), '/');
            files.push_to(name.as_str(), k);
            proof {
                let more = sv.take(k + 1);
                assert(sv[k as int] == self.sites@[k as int].deep_view());
                assert(more.drop_last() =~= sv.take(k as int));
                assert forall|b: Seq<char>| #[trigger] dict::list_at(files@, b) == bucket(
                    more,
                    b,
                ) by {
                    assert(dict::list_at(before, b) == bucket(sv.take(k as int), b));
                }
            }
            k += 1;
        }
        proof {
            assert(sv.take(k as int) =~= sv);
        }
        Lookup { index: self, files }
    }
}

/// The lookup of source lines in an index.
pub struct Lookup<'a> {
    index: &'a ResolveIndex,
    files: Dict<Vec<usize>>,
}

proof fn lemma_bucket(sites: Seq<SiteV>, name: Seq<char>)
    requires
        sites.len() <= usize::MAX,
    ensures
        in_file(sites, name, bucket(sites, name)),
    decreases sites.len(),
{
    if sites.len() > 0 {
        let front = sites.drop_last();
        let rest = bucket(front, name);
        let list = bucket(sites, name);
        lemma_bucket(front, name);
        assert forall|i: int| 0 <= i < list.len() implies (#[trigger] list[i]) < sites.len()
            && base(sites[list[i] as int].relpath) == name by {
            if i < rest.len() {
                assert(rest[i] < front.len());
                assert(front[rest[i] as int] == sites[rest[i] as int]);
            }
        }
        assert forall|j: int|
            0 <= j < sites.len() && base(#[trigger] sites[j].relpath) == name implies list.contains(
            j as usize,
        ) by {
            if j < front.len() {
                assert(front[j] == sites[j]);
                assert(rest.contains(j as usize));
                let i = choose|i: int| 0 <= i < rest.len() && rest[i] == j as usize;
                assert(list[i] == j as usize);
            } else {
                assert(list[list.len() - 1] == j as usize);
            }
        }
    }
}

/// The list numbers exactly the sites in files of that base name.
pub open spec fn in_file(sites: Seq<SiteV>, name: Seq<char>, list: Seq<usize>) -> bool {
    &&& forall|i: int|
        0 <= i < list.len() ==> (#[trigger] list[i]) < sites.len() && base(
            sites[list[i] as int].relpath,
        ) == name
    &&& forall|j: int|
        0 <= j < sites.len() && base(#[trigger] sites[j].relpath) == name ==> list.contains(
            j as usize,
        )
}

impl<'a> Lookup<'a> {
    /// The sites that are looked up.
    pub closed spec fn sites(&self) -> Seq<SiteV> {
        self.index.sites.deep_view()
    }

    /// Each file's bucket holds its sites.
    pub closed spec fn wf(&self) -> bool {
        &&& self.files.wf()
        &&& forall|name: Seq<char>| #[trigger]
            dict::list_at(self.files@, name) == bucket(self.sites(), name)
    }

    fn nearest_of(&self, list: &Vec<usize>, line: i64) -> (r: Option<i128>)
        requires
            forall|i: int| 0 <= i < list@.len() ==> (#[trigger] list@[i]) < self.sites().len(),
        ensures
            match r {
                Some(d) => nearest(self.sites(), list@, line) == Some(d as int),
                None => nearest(self.sites(), list@, line) is None,
            },
    {
        let ghost sv = self.sites();
        let mut best: Option<i128> = None;
        let ghost mut acc: Option<int> = None;
        let mut k: usize = 0;
        while k < list.len()
            invariant
                k <= list@.len(),
                sv == self.index.sites.deep_view(),
                forall|i: int| 0 <= i < list@.len() ==> (#[trigger] list@[i]) < sv.len(),
                nearest(sv, list@, line) == nearest_from(sv, list@, line, k as int, acc),
                match best {
                    Some(d) => acc == Some(d as int),
                    None => acc is None,
                },
            decreases list@.len() - k,
        {
            let i = list[k];
            proof {
                assert(list@[k as int] < sv.len());
                assert(sv[i as int] == self.index.sites@[i as int].deep_view());
            }
            if let Some(l) = self.index.sites[i].line {
                let a = l as i128;
                let b = line as i128;
                let d = if a >= b {
                    a - b
                } else {
                    b - a
                };
                best = match best {
                    None => Some(d),
                    Some(e) => Some(
                        if d < e {
                            d
                        } else {
                            e
                        },
                    ),
                };
                proof {
                    acc = Some(best->0 as int);
                }
            }
            k += 1;
        }
        best
    }

    fn locks_of(&self, list: &Vec<usize>, line: i64, at: Option<i128>) -> (r: Vec<String>)
        requires
            forall|i: int| 0 <= i < list@.len() ==> (#[trigger] list@[i]) < self.sites().len(),
        ensures
            r.deep_view() == locks_from(
                self.sites(),
                list@,
                line,
                match at {
                    Some(d) => Some(d as int),
                    None => None,
                },
                0,
                Seq::empty(),
            ),
    {
        let ghost sv = self.sites();
        let ghost want: Option<int> = match at {
            Some(d) => Some(d as int),
            None => None,
        };
        let mut out = Names::new();
        let mut k: usize = 0;
        while k < list.len()
            invariant
                k <= list@.len(),
                out.wf(),
                sv == self.index.sites.deep_view(),
                want == (match at {
                    Some(d) => Some(d as int),
                    None => None,
                }),
                forall|i: int| 0 <= i < list@.len() ==> (#[trigger] list@[i]) < sv.len(),
                locks_from(sv, list@, line, want, 0, Seq::empty()) == locks_from(
                    sv,
                    list@,
                    line,
                    want,
                    k as int,
                    out@,
                ),
            decreases list@.len() - k,
        {
            let i = list[k];
            proof {
                assert(list@[k as int] < sv.len());
                assert(sv[i as int] == self.index.sites@[i as int].deep_view());
            }
            let site = &self.index.sites[i];
            let take = match (at, site.line) {
                (None, _) => true,
                (Some(_), None) => false,
                (Some(d), Some(l)) => {
                    let a = l as i128;
                    let b = line as i128;
                    if a >= b {
                        a - b == d
                    } else {
                        b - a == d
                    }
                },
            };
            if take {
                out.intern(site.lock.as_str());
            }
            k += 1;
        }
        out.into_list()
    }

    /// The locks taken at a source line: an exact line match; else the nearest
    /// monitor-enter within `fuzz` lines; else, with `if_unique`, the file's sole lock when
    /// unambiguous.
    pub fn resolve(&self, file: &str, line: i64, fuzz: u32, if_unique: bool) -> (r: Vec<String>)
        requires
            self.wf(),
        ensures
            r.deep_view() == resolved(self.sites(), file@, line, fuzz, if_unique),
    {
        let ghost sv = self.sites();
        let name = text::after_last(file, '/');
        let ghost list_v = bucket(sv, name@);
        let none: Vec<usize> = values::empty();
        let n = self.index.sites.len();
        proof {
            assert(dict::list_at(self.files@, name@) == list_v);
            assert(sv.len() == n);
            lemma_bucket(sv, name@);
        }
        let list = match self.files.get(name.as_str()) {
            Some(l) => l,
            None => &none,
        };
        proof {
            assert(list.deep_view() == list_v);
            assert(list@ =~= list_v);
        }
        match self.nearest_of(list, line) {
            Some(d) => if d <= fuzz as i128 {
                return self.locks_of(list, line, Some(d));
            },
            None => {},
        }
        if if_unique {
            let all = self.locks_of(list, line, None);
            proof {
                assert(all.deep_view().len() == all@.len());
            }
            if all.len() == 1 {
                return all;
            }
        }
        values::empty()
    }
}

/// A site of the file at exactly that line.
pub open spec fn at_line(s: SiteV, file: Seq<char>, line: i64) -> bool {
    base(s.relpath) == base(file) && (s.line matches Some(l) && l == line)
}

/// An exact line match wins: where a site of the file stands on the line, its lock is
/// answered, and every lock answered is that of such a site, whatever the tolerance and the
/// fallback.
pub proof fn law_exact_line_wins(
    sites: Seq<SiteV>,
    file: Seq<char>,
    line: i64,
    fuzz: u32,
    if_unique: bool,
    j: int,
)
    requires
        sites.len() <= usize::MAX,
        0 <= j < sites.len(),
        at_line(sites[j], file, line),
    ensures
        resolved(sites, file, line, fuzz, if_unique).contains(sites[j].lock),
        forall|x: Seq<char>| #[trigger]
            resolved(sites, file, line, fuzz, if_unique).contains(x) ==> exists|i: int|
                0 <= i < sites.len() && at_line(#[trigger] sites[i], file, line)
                    && sites[i].lock == x,
{
    let list = bucket(sites, base(file));
    lemma_bucket(sites, base(file));
    assert(base(sites[j].relpath) == base(file));
    assert(list.contains(j as usize));
    let p = choose|p: int| 0 <= p < list.len() && list[p] == j as usize;
    lemma_nearest(sites, list, line, 0, None);
    assert(distance(sites[list[p] as int], line) == Some(0int));
    let d = nearest(sites, list, line)->0;
    assert(d == 0);
    lemma_locks(sites, list, line, Some(d), 0, Seq::empty());
    assert(takes(sites, list, line, Some(d), p));
    assert(locks_at(sites, list, line, d).contains(sites[j].lock));
    assert forall|x: Seq<char>| #[trigger]
        resolved(sites, file, line, fuzz, if_unique).contains(x) implies exists|i: int|
        0 <= i < sites.len() && at_line(#[trigger] sites[i], file, line) && sites[i].lock == x by {
        let k = choose|k: int|
            0 <= k < list.len() && takes(sites, list, line, Some(d), k) && sites[list[k] as int].lock
                == x;
        assert(list[k] < sites.len());
        assert(at_line(sites[list[k] as int], file, line));
    }
}

/// A lock that is answered is one that the file takes: resolution never invents a lock.
pub proof fn law_answers_are_locks_of_the_file(
    sites: Seq<SiteV>,
    file: Seq<char>,
    line: i64,
    fuzz: u32,
    if_unique: bool,
    x: Seq<char>,
)
    requires
        sites.len() <= usize::MAX,
        resolved(sites, file, line, fuzz, if_unique).contains(x),
    ensures
        exists|i: int|
            0 <= i < sites.len() && base((#[trigger] sites[i]).relpath) == base(file)
                && sites[i].lock == x,
{
    let list = bucket(sites, base(file));
    lemma_bucket(sites, base(file));
    let near = nearest(sites, list, line);
    lemma_locks(sites, list, line, near, 0, Seq::empty());
    lemma_locks(sites, list, line, None, 0, Seq::empty());
    let at = if near is Some && near->0 <= fuzz {
        near
    } else {
        None
    };
    let k = choose|k: int|
        0 <= k < list.len() && takes(sites, list, line, at, k) && sites[list[k] as int].lock == x;
    let i = list[k] as int;
    assert(list[k] < sites.len());
    assert(base(sites[i].relpath) == base(file));
}

/// A line without a site within the tolerance is not answered from another line, unless the
/// fallback asks for the file's sole lock.
pub proof fn law_tolerance_bounds_the_answer(
    sites: Seq<SiteV>,
    file: Seq<char>,
    line: i64,
    fuzz: u32,
)
    requires
        sites.len() <= usize::MAX,
        forall|j: int|
            0 <= j < sites.len() && base((#[trigger] sites[j]).relpath) == base(file) ==> (
            distance(sites[j], line) matches Some(d) ==> d > fuzz),
    ensures
        resolved(sites, file, line, fuzz, false).len() == 0,
{
    let list = bucket(sites, base(file));
    lemma_bucket(sites, base(file));
    lemma_nearest(sites, list, line, 0, None);
    match nearest(sites, list, line) {
        None => {},
        Some(d) => {
            let k = choose|k: int|
                0 <= k < list.len() && distance(sites[#[trigger] list[k] as int], line) == Some(d);
            assert(list[k] < sites.len());
            assert(base(sites[list[k] as int].relpath) == base(file));
        },
    }
}

/// The `k`th site of the list is taken: it is that far away, if a distance is given.
pub open spec fn takes(
    sites: Seq<SiteV>,
    list: Seq<usize>,
    line: i64,
    at: Option<int>,
    k: int,
) -> bool {
    at is None || distance(sites[list[k] as int], line) == at
}

proof fn lemma_nearest(sites: Seq<SiteV>, list: Seq<usize>, line: i64, k: int, acc: Option<int>)
    requires
        0 <= k <= list.len(),
        acc matches Some(a) ==> a >= 0,
    ensures
        match nearest_from(sites, list, line, k, acc) {
            None => acc is None && forall|i: int|
                k <= i < list.len() ==> distance(sites[#[trigger] list[i] as int], line) is None,
            Some(d) => {
                &&& d >= 0
                &&& acc matches Some(a) ==> d <= a
                &&& forall|i: int|
                    k <= i < list.len() ==> (distance(sites[#[trigger] list[i] as int], line) matches Some(
                        e,
                    ) ==> d <= e)
                &&& acc == Some(d) || exists|i: int|
                    k <= i < list.len() && distance(sites[#[trigger] list[i] as int], line) == Some(d)
            },
        },
    decreases list.len() - k,
{
    if k < list.len() {
        let here = distance(sites[list[k] as int], line);
        let next = match (here, acc) {
            (None, _) => acc,
            (Some(d), None) => Some(d),
            (Some(d), Some(a)) => Some(
                if d < a {
                    d
                } else {
                    a
                },
            ),
        };
        lemma_nearest(sites, list, line, k + 1, next);
        assert(nearest_from(sites, list, line, k, acc) == nearest_from(
            sites,
            list,
            line,
            k + 1,
            next,
        ));
    }
}

proof fn lemma_locks(
    sites: Seq<SiteV>,
    list: Seq<usize>,
    line: i64,
    at: Option<int>,
    k: int,
    acc: Seq<Seq<char>>,
)
    requires
        0 <= k <= list.len(),
    ensures
        forall|x: Seq<char>| #[trigger]
            locks_from(sites, list, line, at, k, acc).contains(x) <==> acc.contains(x) || exists|
                i: int,
            |
                k <= i < list.len() && #[trigger] takes(sites, list, line, at, i)
                    && sites[list[i] as int].lock == x,
    decreases list.len() - k,
{
    if k < list.len() {
        let s = sites[list[k] as int];
        let next = if takes(sites, list, line, at, k) {
            names::with(acc, s.lock)
        } else {
            acc
        };
        lemma_locks(sites, list, line, at, k + 1, next);
        assert(locks_from(sites, list, line, at, k, acc) == locks_from(
            sites,
            list,
            line,
            at,
            k + 1,
            next,
        ));
        assert forall|x: Seq<char>| next.contains(x) <==> acc.contains(x) || (takes(
            sites,
            list,
            line,
            at,
            k,
        ) && x == s.lock) by {
            if !acc.contains(s.lock) && takes(sites, list, line, at, k) {
                assert(next[next.len() - 1] == s.lock);
                if acc.contains(x) {
                    let i = choose|i: int| 0 <= i < acc.len() && acc[i] == x;
                    assert(next[i] == x);
                }
                if next.contains(x) && x != s.lock {
                    let i = choose|i: int| 0 <= i < next.len() && next[i] == x;
                    assert(acc[i] == x);
                }
            }
        }
    }
}

/// Every lock of the projection has a name, so that every answer is a real definition.
pub proof fn law_projection_names_every_lock(acqs: Seq<AcquisitionV>)
    ensures
        forall|i: int|
            0 <= i < sites_from(acqs, 0, Seq::empty()).len() ==> is_named(
                (#[trigger] sites_from(acqs, 0, Seq::empty())[i]).lock,
            ),
{
    lemma_named(acqs, 0, Seq::empty());
}

proof fn lemma_named(acqs: Seq<AcquisitionV>, k: int, acc: Seq<SiteV>)
    requires
        forall|i: int| 0 <= i < acc.len() ==> is_named((#[trigger] acc[i]).lock),
    ensures
        forall|i: int|
            0 <= i < sites_from(acqs, k, acc).len() ==> is_named(
                (#[trigger] sites_from(acqs, k, acc)[i]).lock,
            ),
    decreases acqs.len() - k,
{
    if k < acqs.len() {
        let next = if is_named(acqs[k].lock) {
            acc.push(
                SiteV {
                    relpath: relpath(acqs[k]),
                    method: acqs[k].method,
                    line: acqs[k].line,
                    lock: acqs[k].lock,
                },
            )
        } else {
            acc
        };
        lemma_named(acqs, k + 1, next);
        assert(sites_from(acqs, k, acc) == sites_from(acqs, k + 1, next));
    }
}

} // verus!
