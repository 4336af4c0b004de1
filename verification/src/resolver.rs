//! The resolver: turn contention source sites into canonical locks.
//!
//! For a build, the expensive step (parse the DEX, run the lock analysis in
//! [`crate::dex`]) is done once and its site→lock projection is kept, and then every site
//! is answered from an in-memory lookup.

use crate::dex::acquire;
use crate::dex::input;
use crate::dex::input::InputError;
use crate::dex::model::DexV;
use crate::dex::native::reader::DexError;
use crate::dex::resolve;
use crate::dex::resolve::{ResolveIndex, SiteV};
use crate::dict::{Dict, DictV};
use crate::site;
use crate::text;
use vstd::prelude::*;

verus! {

/// How to resolve: line-drift tolerance and the "sole lock in the file" fallback.
/// Defaults to exact-line, no fallback.
#[derive(Clone, Copy, Debug, PartialEq, Eq, Structural)]
pub struct Options {
    /// Snap to the nearest monitor-enter within this many lines (0 = exact only).
    pub fuzz: u32,
    /// When the line can't be matched, return the file's sole lock if unambiguous.
    pub if_unique: bool,
}

impl Default for Options {
    fn default() -> (r: Self)
        ensures
            r == (Options { fuzz: 0, if_unique: false }),
    {
        Options { fuzz: 0, if_unique: false }
    }
}

/// Resolves sites for builds, each build's index being kept under a name of its own.
#[derive(Debug)]
pub struct Resolver {
    pub cache_dir: String,
    pub scope: Option<String>,
    pub opts: Options,
}

/// The names from the `k`th on, separated by commas, behind `acc`.
pub open spec fn listed_from(list: Seq<Seq<char>>, k: int, acc: Seq<char>) -> Seq<char>
    decreases list.len() - k,
{
    if k >= list.len() {
        acc
    } else if k == 0 {
        listed_from(list, k + 1, acc + list[k])
    } else {
        listed_from(list, k + 1, acc + ", "@ + list[k])
    }
}

/// The names, separated by commas.
pub open spec fn listed(list: Seq<Seq<char>>) -> Seq<char> {
    listed_from(list, 0, Seq::empty())
}

fn join(list: &Vec<String>) -> (r: String)
    ensures
        r@ == listed(list.deep_view()),
{
    let ghost lv = list.deep_view();
    let mut out = String::new();
    let mut k: usize = 0;
    proof {
        assert(out@ =~= Seq::empty());
    }
    while k < list.len()
        invariant
            k <= list@.len(),
            lv == list.deep_view(),
            listed(lv) == listed_from(lv, k as int, out@),
        decreases list@.len() - k,
    {
        proof {
            assert(lv[k as int] == list@[k as int]@);
        }
        out = if k == 0 {
            text::cat(out.as_str(), list[k].as_str())
        } else {
            text::cat3(out.as_str(), ", ", list[k].as_str())
        };
        k += 1;
    }
    out
}

/// The lock of a site: the names of the locks taken there, or `N/A` without one.
pub open spec fn lock_name(sites: Seq<SiteV>, opts: Options, s: Seq<char>) -> Seq<char> {
    match site::parsed(s) {
        None => "N/A"@,
        Some((file, line)) => {
            let locks = resolve::resolved(sites, file, line, opts.fuzz, opts.if_unique);
            if locks.len() == 0 {
                "N/A"@
            } else {
                listed(locks)
            }
        },
    }
}

/// The sites from the `k`th on with their locks, behind `acc`.
pub open spec fn answers_from(
    sites: Seq<SiteV>,
    opts: Options,
    asked: Seq<Seq<char>>,
    k: int,
    acc: DictV<Seq<char>>,
) -> DictV<Seq<char>>
    decreases asked.len() - k,
{
    if k >= asked.len() {
        acc
    } else {
        answers_from(
            sites,
            opts,
            asked,
            k + 1,
            acc.put(asked[k], lock_name(sites, opts, asked[k])),
        )
    }
}

/// Each site that was asked for with its lock.
pub open spec fn answers(sites: Seq<SiteV>, opts: Options, asked: Seq<Seq<char>>) -> DictV<
    Seq<char>,
> {
    answers_from(sites, opts, asked, 0, DictV::none())
}

/// Every site that was asked for is answered with its lock, and no other is.
pub proof fn law_every_site_is_answered(
    sites: Seq<SiteV>,
    opts: Options,
    asked: Seq<Seq<char>>,
    s: Seq<char>,
)
    ensures
        answers(sites, opts, asked).get(s) == if asked.contains(s) {
            Some(lock_name(sites, opts, s))
        } else {
            None
        },
{
    lemma_answers(sites, opts, asked, 0, DictV::none(), s);
    if asked.contains(s) {
        let i = choose|i: int| 0 <= i < asked.len() && asked[i] == s;
        assert(asked.skip(0)[i] == s);
    } else {
        assert(!asked.skip(0).contains(s)) by {
            assert(asked.skip(0) =~= asked);
        }
    }
}

proof fn lemma_answers(
    sites: Seq<SiteV>,
    opts: Options,
    asked: Seq<Seq<char>>,
    k: int,
    acc: DictV<Seq<char>>,
    s: Seq<char>,
)
    requires
        0 <= k <= asked.len(),
    ensures
        answers_from(sites, opts, asked, k, acc).get(s) == if asked.skip(k).contains(s) {
            Some(lock_name(sites, opts, s))
        } else {
            acc.get(s)
        },
    decreases asked.len() - k,
{
    if k < asked.len() {
        let next = acc.put(asked[k], lock_name(sites, opts, asked[k]));
        lemma_answers(sites, opts, asked, k + 1, next, s);
        assert(answers_from(sites, opts, asked, k, acc) == answers_from(
            sites,
            opts,
            asked,
            k + 1,
            next,
        ));
        let here = asked.skip(k);
        let rest = asked.skip(k + 1);
        assert(here[0] == asked[k]);
        assert(here.contains(s) <==> s == asked[k] || rest.contains(s)) by {
            if here.contains(s) && s != asked[k] {
                let i = choose|i: int| 0 <= i < here.len() && here[i] == s;
                assert(rest[i - 1] == s);
            }
            if rest.contains(s) {
                let i = choose|i: int| 0 <= i < rest.len() && rest[i] == s;
                assert(here[i + 1] == s);
            }
        }
    } else {
        assert(asked.skip(k).len() == 0);
    }
}

impl Resolver {
    /// A resolver that keeps its indexes in `cache_dir`.
    pub fn new(cache_dir: String, scope: Option<String>, opts: Options) -> (r: Self)
        ensures
            r.cache_dir == cache_dir,
            r.scope == scope,
            r.opts == opts,
    {
        Resolver { cache_dir, scope, opts }
    }

    /// Resolve a set of sites against a build's index. Gives `site → lock name`
    /// (`"N/A"` when unresolved).
    pub fn resolve(&self, index: &ResolveIndex, sites: &Vec<String>) -> (r: Dict<String>)
        ensures
            r.wf(),
            r@ == answers(index.sites.deep_view(), self.opts, sites.deep_view()),
    {
        let ghost iv = index.sites.deep_view();
        let ghost sv = sites.deep_view();
        let lookup = index.prepare();
        let mut out: Dict<String> = Dict::new();
        let mut k: usize = 0;
        while k < sites.len()
            invariant
                k <= sites@.len(),
                sv == sites.deep_view(),
                lookup.wf(),
                lookup.sites() == iv,
                out.wf(),
                answers(iv, self.opts, sv) == answers_from(iv, self.opts, sv, k as int, out@),
            decreases sites@.len() - k,
        {
            let s = sites[k].as_str();
            proof {
                assert(sv[k as int] == s@);
            }
            let name = match site::parse(s) {
                None => "N/A".to_string(),
                Some((file, line)) => {
                    let locks = lookup.resolve(
                        file.as_str(),
                        line,
                        self.opts.fuzz,
                        self.opts.if_unique,
                    );
                    proof {
                        assert(locks.deep_view().len() == locks@.len());
                    }
                    if locks.len() == 0 {
                        "N/A".to_string()
                    } else {
                        join(&locks)
                    }
                },
            };
            out.set(s, name);
            k += 1;
        }
        out
    }
}

/// Analyze what was gathered from a build's artifacts and project it to a site→lock index.
pub fn build_index(blobs: Vec<Vec<Vec<u8>>>) -> (r: Result<ResolveIndex, InputError>)
    ensures
        match r {
            Ok(x) => {
                let b = input::all_blobs(blobs.deep_view(), 0, Seq::empty());
                &&& blobs@.len() > 0 && b.len() > 0
                &&& input::blobs_dex(b) matches Ok(d) && x.version == ResolveIndex::VERSION
                    && x.sites.deep_view() == resolve::sites_from(
                    acquire::acquired(d),
                    0,
                    Seq::empty(),
                )
            },
            Err(InputError::NoInputs) => blobs@.len() == 0,
            Err(InputError::NoDex) => blobs@.len() > 0 && input::all_blobs(
                blobs.deep_view(),
                0,
                Seq::empty(),
            ).len() == 0,
            Err(InputError::Bad(e)) => blobs@.len() > 0 && input::all_blobs(
                blobs.deep_view(),
                0,
                Seq::empty(),
            ).len() > 0 && input::blobs_dex(input::all_blobs(blobs.deep_view(), 0, Seq::empty()))
                == Err::<DexV, DexError>(e),
        },
{
    match input::parse_inputs(blobs) {
        Err(e) => Err(e),
        Ok(dex) => {
            let acqs = acquire::acquisitions(&dex);
            Ok(ResolveIndex::from_acquisitions(&acqs))
        },
    }
}

/// A kept index can be used: it is of the version that is written now.
pub fn is_current(index: &ResolveIndex) -> (r: bool)
    ensures
        r == (index.version == ResolveIndex::VERSION),
{
    index.version == ResolveIndex::VERSION
}

/// A character that may stand in a file name.
pub open spec fn is_safe(c: char) -> bool {
    ||| 'a' <= c <= 'z'
    ||| 'A' <= c <= 'Z'
    ||| '0' <= c <= '9'
    ||| c == '.'
    ||| c == '-'
    ||| c == '_'
}

/// The text with `_` for what may not stand in a file name.
pub open spec fn sanitized(s: Seq<char>) -> Seq<char> {
    Seq::new(
        s.len(),
        |i: int|
            if is_safe(s[i]) {
                s[i]
            } else {
                '_'
            },
    )
}

/// Make a build id safe as a filename.
pub fn sanitize(s: &str) -> (r: String)
    ensures
        r@ == sanitized(s@),
{
    let v = text::chars_of(s);
    let mut out = String::new();
    let mut k: usize = 0;
    proof {
        assert(out@ =~= sanitized(v@.take(0)));
    }
    while k < v.len()
        invariant
            k <= v@.len(),
            out@ == sanitized(v@.take(k as int)),
        decreases v@.len() - k,
    {
        let c = v[k];
        let safe = ('a' <= c && c <= 'z') || ('A' <= c && c <= 'Z') || ('0' <= c && c <= '9') || c
            == '.' || c == '-' || c == '_';
        out.push(
            if safe {
                c
            } else {
                '_'
            },
        );
        k += 1;
        proof {
            assert(out@ =~= sanitized(v@.take(k as int)));
        }
    }
    proof {
        assert(v@.take(k as int) =~= v@);
    }
    out
}

/// The name of the file in which a build's index is kept.
pub fn cache_name(build_id: &str) -> (r: String)
    ensures
        r@ == sanitized(build_id@) + ".idx.json"@,
{
    let name = sanitize(build_id);
    text::cat(name.as_str(), ".idx.json")
}

/// A sanitized name holds only characters that may stand in a file name, and sanitizing it
/// again changes nothing.
pub proof fn law_sanitized_names_are_safe(s: Seq<char>)
    ensures
        forall|i: int| 0 <= i < sanitized(s).len() ==> is_safe(#[trigger] sanitized(s)[i]),
        sanitized(sanitized(s)) == sanitized(s),
{
    assert(sanitized(sanitized(s)) =~= sanitized(s));
}

} // verus!
