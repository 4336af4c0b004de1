//! Input pipeline: turn DEX blobs into one merged [`Dex`]. Every section is parsed and
//! merged, so the call graph resolves across artifact boundaries.

use crate::dex;
use crate::dex::model::{Class, ClassV, Dex, DexV};
use crate::dex::native::code;
use crate::dex::native::image;
use crate::dex::native::reader::DexError;
use crate::names;
use crate::names::Names;
use crate::sort;
use crate::values;
use vstd::prelude::*;

verus! {

/// Why there is nothing to analyze.
#[derive(Clone, Copy, Debug, PartialEq, Eq, Structural)]
pub enum InputError {
    /// No inputs were given.
    NoInputs,
    /// The inputs hold no DEX.
    NoDex,
    /// A blob is no DEX image.
    Bad(DexError),
}

impl InputError {
    /// What the error says.
    pub fn message(&self) -> (r: String)
        ensures
            r@ == match *self {
                InputError::NoInputs => "no inputs to analyze"@,
                InputError::NoDex => "no dex found in the given inputs"@,
                InputError::Bad(e) => e.says(),
            },
    {
        match self {
            InputError::NoInputs => "no inputs to analyze".to_string(),
            InputError::NoDex => "no dex found in the given inputs".to_string(),
            InputError::Bad(e) => e.message(),
        }
    }
}

/// The classes from the `k`th on whose name is not `seen` yet, behind `acc`.
pub open spec fn fresh(
    cs: Seq<ClassV>,
    k: int,
    acc: Seq<ClassV>,
    seen: Seq<Seq<char>>,
) -> (Seq<ClassV>, Seq<Seq<char>>)
    decreases cs.len() - k,
{
    if k >= cs.len() {
        (acc, seen)
    } else {
        fresh(
            cs,
            k + 1,
            if seen.contains(cs[k].descriptor) {
                acc
            } else {
                acc.push(cs[k])
            },
            names::with(seen, cs[k].descriptor),
        )
    }
}

/// The parses from the `k`th on, behind `acc`, without the classes that are `seen`.
pub open spec fn merged_from(ds: Seq<DexV>, k: int, acc: DexV, seen: Seq<Seq<char>>) -> DexV
    decreases ds.len() - k,
{
    if k >= ds.len() {
        acc
    } else {
        let (classes, more) = fresh(ds[k].classes, 0, acc.classes, seen);
        merged_from(
            ds,
            k + 1,
            DexV {
                classes,
                final_or_volatile_fields: names::with_all(
                    acc.final_or_volatile_fields,
                    ds[k].final_or_volatile_fields,
                ),
            },
            more,
        )
    }
}

/// The parses as one.
pub open spec fn merged(ds: Seq<DexV>) -> DexV {
    merged_from(
        ds,
        0,
        DexV { classes: Seq::empty(), final_or_volatile_fields: Seq::empty() },
        Seq::empty(),
    )
}

/// The parses of the blobs from the `k`th on, behind `acc`.
pub open spec fn parses(blobs: Seq<Seq<u8>>, k: int, acc: Seq<DexV>) -> Result<Seq<DexV>, DexError>
    decreases blobs.len() - k,
{
    if k >= blobs.len() {
        Ok(acc)
    } else {
        match image::image(blobs[k]) {
            Err(e) => Err(e),
            Ok(d) => parses(blobs, k + 1, acc.push(d)),
        }
    }
}

/// The blobs as one.
pub open spec fn blobs_dex(blobs: Seq<Seq<u8>>) -> Result<DexV, DexError> {
    match parses(blobs, 0, Seq::empty()) {
        Err(e) => Err(e),
        Ok(ds) => Ok(merged(ds)),
    }
}

/// No two classes have the same name.
pub open spec fn distinct_classes(cs: Seq<ClassV>) -> bool {
    forall|i: int, j: int|
        0 <= i < j < cs.len() ==> (#[trigger] cs[i]).descriptor != (#[trigger] cs[j]).descriptor
}

/// `seen` holds the names of all the classes.
spec fn names_of(cs: Seq<ClassV>, seen: Seq<Seq<char>>) -> bool {
    forall|i: int| 0 <= i < cs.len() ==> seen.contains((#[trigger] cs[i]).descriptor)
}

proof fn lemma_fresh(cs: Seq<ClassV>, k: int, acc: Seq<ClassV>, seen: Seq<Seq<char>>)
    requires
        0 <= k,
        distinct_classes(acc),
        names_of(acc, seen),
    ensures
        distinct_classes(fresh(cs, k, acc, seen).0),
        names_of(fresh(cs, k, acc, seen).0, fresh(cs, k, acc, seen).1),
        acc.len() <= fresh(cs, k, acc, seen).0.len(),
        fresh(cs, k, acc, seen).0.take(acc.len() as int) == acc,
    decreases cs.len() - k,
{
    if k < cs.len() {
        let c = cs[k];
        let next = if seen.contains(c.descriptor) {
            acc
        } else {
            acc.push(c)
        };
        let more = names::with(seen, c.descriptor);
        assert(names_of(next, more)) by {
            assert forall|i: int| 0 <= i < next.len() implies more.contains(
                (#[trigger] next[i]).descriptor,
            ) by {
                if i < acc.len() {
                    assert(seen.contains(acc[i].descriptor));
                    names::lemma_with(seen, c.descriptor);
                } else {
                    names::lemma_with(seen, c.descriptor);
                }
            }
        }
        assert(distinct_classes(next)) by {
            assert forall|i: int, j: int| 0 <= i < j < next.len() implies (
            #[trigger] next[i]).descriptor != (#[trigger] next[j]).descriptor by {
                if j == acc.len() {
                    assert(seen.contains(acc[i].descriptor));
                }
            }
        }
        lemma_fresh(cs, k + 1, next, more);
        assert(fresh(cs, k, acc, seen) == fresh(cs, k + 1, next, more));
        let r = fresh(cs, k, acc, seen).0;
        assert(r.take(acc.len() as int) =~= r.take(next.len() as int).take(acc.len() as int));
        assert(next.take(acc.len() as int) =~= acc);
    } else {
        assert(acc.take(acc.len() as int) =~= acc);
    }
}

proof fn lemma_merged_distinct(ds: Seq<DexV>, k: int, acc: DexV, seen: Seq<Seq<char>>)
    requires
        0 <= k,
        distinct_classes(acc.classes),
        names_of(acc.classes, seen),
    ensures
        distinct_classes(merged_from(ds, k, acc, seen).classes),
    decreases ds.len() - k,
{
    if k < ds.len() {
        lemma_fresh(ds[k].classes, 0, acc.classes, seen);
        let (classes, more) = fresh(ds[k].classes, 0, acc.classes, seen);
        let next = DexV {
            classes,
            final_or_volatile_fields: names::with_all(
                acc.final_or_volatile_fields,
                ds[k].final_or_volatile_fields,
            ),
        };
        lemma_merged_distinct(ds, k + 1, next, more);
        assert(merged_from(ds, k, acc, seen) == merged_from(ds, k + 1, next, more));
    }
}

/// A class that several artifacts hold is kept once.
pub proof fn law_merge_keeps_one_copy(ds: Seq<DexV>)
    ensures
        distinct_classes(merged(ds).classes),
{
    lemma_merged_distinct(
        ds,
        0,
        DexV { classes: Seq::empty(), final_or_volatile_fields: Seq::empty() },
        Seq::empty(),
    );
}

proof fn lemma_with_all(s: Seq<Seq<char>>, t: Seq<Seq<char>>, y: Seq<char>)
    ensures
        s.contains(y) || t.contains(y) ==> names::with_all(s, t).contains(y),
    decreases t.len(),
{
    if t.len() > 0 {
        let front = t.drop_last();
        lemma_with_all(s, front, y);
        if t.contains(y) && y != t.last() {
            let i = choose|i: int| 0 <= i < t.len() && t[i] == y;
            assert(front[i] == y);
        }
        names::lemma_with(names::with_all(s, front), t.last());
    }
}

proof fn lemma_merged_fields(ds: Seq<DexV>, k: int, acc: DexV, seen: Seq<Seq<char>>, f: Seq<char>)
    requires
        0 <= k,
        acc.final_or_volatile_fields.contains(f) || exists|i: int|
            k <= i < ds.len() && (#[trigger] ds[i]).final_or_volatile_fields.contains(f),
    ensures
        merged_from(ds, k, acc, seen).final_or_volatile_fields.contains(f),
    decreases ds.len() - k,
{
    if k < ds.len() {
        let (classes, more) = fresh(ds[k].classes, 0, acc.classes, seen);
        let next = DexV {
            classes,
            final_or_volatile_fields: names::with_all(
                acc.final_or_volatile_fields,
                ds[k].final_or_volatile_fields,
            ),
        };
        lemma_with_all(acc.final_or_volatile_fields, ds[k].final_or_volatile_fields, f);
        lemma_merged_fields(ds, k + 1, next, more, f);
        assert(merged_from(ds, k, acc, seen) == merged_from(ds, k + 1, next, more));
    }
}

/// Merging carries every final or volatile field over.
pub proof fn law_merge_keeps_every_field(ds: Seq<DexV>, i: int, f: Seq<char>)
    requires
        0 <= i < ds.len(),
        ds[i].final_or_volatile_fields.contains(f),
    ensures
        merged(ds).final_or_volatile_fields.contains(f),
{
    lemma_merged_fields(
        ds,
        0,
        DexV { classes: Seq::empty(), final_or_volatile_fields: Seq::empty() },
        Seq::empty(),
        f,
    );
}

/// No class of `cs` before the `j`th has that name.
pub open spec fn unnamed_before(cs: Seq<ClassV>, j: int, name: Seq<char>) -> bool {
    forall|i: int| 0 <= i < j ==> (#[trigger] cs[i]).descriptor != name
}

proof fn lemma_fresh_adds(
    cs: Seq<ClassV>,
    k: int,
    acc: Seq<ClassV>,
    seen: Seq<Seq<char>>,
    j: int,
)
    requires
        0 <= k <= j < cs.len(),
        !seen.contains(cs[j].descriptor),
        forall|i: int| k <= i < j ==> (#[trigger] cs[i]).descriptor != cs[j].descriptor,
    ensures
        fresh(cs, k, acc, seen).0.contains(cs[j]),
    decreases cs.len() - k,
{
    let next = if seen.contains(cs[k].descriptor) {
        acc
    } else {
        acc.push(cs[k])
    };
    let more = names::with(seen, cs[k].descriptor);
    assert(fresh(cs, k, acc, seen) == fresh(cs, k + 1, next, more));
    if k == j {
        assert(next[next.len() - 1] == cs[j]);
        lemma_fresh_keeps(cs, k + 1, next, more, cs[j]);
    } else {
        assert(!more.contains(cs[j].descriptor)) by {
            if more.contains(cs[j].descriptor) && !seen.contains(cs[k].descriptor) {
                let i = choose|i: int| 0 <= i < more.len() && more[i] == cs[j].descriptor;
                if i < seen.len() {
                    assert(seen[i] == cs[j].descriptor);
                }
            }
        }
        lemma_fresh_adds(cs, k + 1, next, more, j);
    }
}

proof fn lemma_fresh_keeps(
    cs: Seq<ClassV>,
    k: int,
    acc: Seq<ClassV>,
    seen: Seq<Seq<char>>,
    c: ClassV,
)
    requires
        0 <= k,
        acc.contains(c),
    ensures
        fresh(cs, k, acc, seen).0.contains(c),
    decreases cs.len() - k,
{
    if k < cs.len() {
        let next = if seen.contains(cs[k].descriptor) {
            acc
        } else {
            acc.push(cs[k])
        };
        let i = choose|i: int| 0 <= i < acc.len() && acc[i] == c;
        assert(next[i] == c);
        lemma_fresh_keeps(cs, k + 1, next, names::with(seen, cs[k].descriptor), c);
    }
}

proof fn lemma_fresh_unseen(
    cs: Seq<ClassV>,
    k: int,
    acc: Seq<ClassV>,
    seen: Seq<Seq<char>>,
    name: Seq<char>,
)
    requires
        0 <= k,
        !seen.contains(name),
        forall|i: int| k <= i < cs.len() ==> (#[trigger] cs[i]).descriptor != name,
    ensures
        !fresh(cs, k, acc, seen).1.contains(name),
    decreases cs.len() - k,
{
    if k < cs.len() {
        let next = if seen.contains(cs[k].descriptor) {
            acc
        } else {
            acc.push(cs[k])
        };
        let more = names::with(seen, cs[k].descriptor);
        assert(!more.contains(name)) by {
            if more.contains(name) && !seen.contains(cs[k].descriptor) {
                let i = choose|i: int| 0 <= i < more.len() && more[i] == name;
                if i < seen.len() {
                    assert(seen[i] == name);
                }
            }
        }
        lemma_fresh_unseen(cs, k + 1, next, more, name);
    }
}

proof fn lemma_merged_first(
    ds: Seq<DexV>,
    k: int,
    acc: DexV,
    seen: Seq<Seq<char>>,
    i: int,
    j: int,
)
    requires
        0 <= k,
        0 <= i < ds.len(),
        0 <= j < ds[i].classes.len(),
        unnamed_before(ds[i].classes, j, ds[i].classes[j].descriptor),
        k <= i ==> !seen.contains(ds[i].classes[j].descriptor) && forall|a: int|
            k <= a < i ==> unnamed_before(
                (#[trigger] ds[a]).classes,
                ds[a].classes.len() as int,
                ds[i].classes[j].descriptor,
            ),
        k > i ==> acc.classes.contains(ds[i].classes[j]),
    ensures
        merged_from(ds, k, acc, seen).classes.contains(ds[i].classes[j]),
    decreases ds.len() - k,
{
    if k < ds.len() {
        let c = ds[i].classes[j];
        let (classes, more) = fresh(ds[k].classes, 0, acc.classes, seen);
        let next = DexV {
            classes,
            final_or_volatile_fields: names::with_all(
                acc.final_or_volatile_fields,
                ds[k].final_or_volatile_fields,
            ),
        };
        if k == i {
            lemma_fresh_adds(ds[k].classes, 0, acc.classes, seen, j);
        } else if k < i {
            assert(unnamed_before(ds[k].classes, ds[k].classes.len() as int, c.descriptor));
            lemma_fresh_unseen(ds[k].classes, 0, acc.classes, seen, c.descriptor);
        } else {
            lemma_fresh_keeps(ds[k].classes, 0, acc.classes, seen, c);
        }
        lemma_merged_first(ds, k + 1, next, more, i, j);
        assert(merged_from(ds, k, acc, seen) == merged_from(ds, k + 1, next, more));
    }
}

/// Merging keeps the copy of a class that comes first: the one from the artifact given
/// first.
pub proof fn law_merge_keeps_the_first_copy(ds: Seq<DexV>, i: int, j: int)
    requires
        0 <= i < ds.len(),
        0 <= j < ds[i].classes.len(),
        unnamed_before(ds[i].classes, j, ds[i].classes[j].descriptor),
        forall|a: int|
            0 <= a < i ==> unnamed_before(
                (#[trigger] ds[a]).classes,
                ds[a].classes.len() as int,
                ds[i].classes[j].descriptor,
            ),
    ensures
        merged(ds).classes.contains(ds[i].classes[j]),
{
    lemma_merged_first(
        ds,
        0,
        DexV { classes: Seq::empty(), final_or_volatile_fields: Seq::empty() },
        Seq::empty(),
        i,
        j,
    );
}

/// Merge per-dex parses into one. Every field of [`Dex`] is carried over: dropping
/// `final_or_volatile_fields` would silently disable the race exclusion for the whole jar.
///
/// A class that appears in more than one artifact is kept once, from the artifact
/// given first, as the runtime resolves it once from the classpath. Keeping every
/// copy does not just waste work: calls resolve to one of them, so the rest are left
/// with no callers at all, and an analysis that reads "no caller holds a lock here"
/// off the call graph draws exactly the wrong conclusion about them.
pub fn merge_dexes(parsed: Vec<Dex>) -> (r: Dex)
    ensures
        r.wf(),
        r.deep_view() == merged(parsed.deep_view()),
{
    let ghost dv = parsed.deep_view();
    let mut out = Dex::default();
    let mut seen = Names::new();
    let ghost begin = out.deep_view();
    let mut rest = sort::reversed(parsed);
    let ghost mut k: int = 0;
    while rest.len() > 0
        invariant
            0 <= k <= dv.len(),
            rest.deep_view() == dv.skip(k).reverse(),
            out.wf(),
            seen.wf(),
            merged_from(dv, 0, begin, Seq::empty()) == merged_from(dv, k, out.deep_view(), seen@),
        decreases rest@.len(),
    {
        let ghost rv = rest.deep_view();
        proof {
            assert(rv.len() == rest@.len());
            assert(rv[rv.len() - 1] == dv[k]);
        }
        match rest.pop() {
            None => {},
            Some(d) => {
                proof {
                    assert(d.deep_view() == dv[k]);
                    assert(rest.deep_view() =~= rv.drop_last());
                    assert(rv.drop_last() =~= dv.skip(k + 1).reverse());
                }
                take_fresh(d.classes, &mut out.classes, &mut seen);
                out.final_or_volatile_fields.extend(&d.final_or_volatile_fields);
                proof {
                    k = k + 1;
                }
            },
        }
    }
    out
}

fn take_fresh(classes: Vec<Class>, out: &mut Vec<Class>, seen: &mut Names)
    requires
        old(seen).wf(),
    ensures
        final(seen).wf(),
        (final(out).deep_view(), final(seen)@) == fresh(
            classes.deep_view(),
            0,
            old(out).deep_view(),
            old(seen)@,
        ),
{
    let ghost cv = classes.deep_view();
    let ghost a = out.deep_view();
    let ghost b = seen@;
    let mut rest = sort::reversed(classes);
    let ghost mut k: int = 0;
    while rest.len() > 0
        invariant
            0 <= k <= cv.len(),
            rest.deep_view() == cv.skip(k).reverse(),
            seen.wf(),
            fresh(cv, 0, a, b) == fresh(cv, k, out.deep_view(), seen@),
        decreases rest@.len(),
    {
        let ghost rv = rest.deep_view();
        proof {
            assert(rv.len() == rest@.len());
            assert(rv[rv.len() - 1] == cv[k]);
        }
        match rest.pop() {
            None => {},
            Some(c) => {
                proof {
                    assert(c.deep_view() == cv[k]);
                    assert(rest.deep_view() =~= rv.drop_last());
                    assert(rv.drop_last() =~= cv.skip(k + 1).reverse());
                }
                let known = seen.contains(c.descriptor.as_str());
                seen.intern(c.descriptor.as_str());
                if !known {
                    values::push(out, c);
                }
                proof {
                    k = k + 1;
                }
            },
        }
    }
}

/// Parse a set of DEX section blobs and merge them.
pub fn parse_blobs(blobs: Vec<Vec<u8>>) -> (r: Result<Dex, DexError>)
    ensures
        code::same_result(r, blobs_dex(blobs.deep_view())),
        r matches Ok(d) ==> d.wf(),
{
    let ghost bv = blobs.deep_view();
    let mut parsed: Vec<Dex> = values::empty();
    let mut k: usize = 0;
    while k < blobs.len()
        invariant
            k <= blobs@.len(),
            bv == blobs.deep_view(),
            parses(bv, 0, Seq::empty()) == parses(bv, k as int, parsed.deep_view()),
        decreases blobs@.len() - k,
    {
        proof {
            assert(bv[k as int] =~= blobs@[k as int]@);
        }
        match dex::parse_dex_blob(blobs[k].as_slice()) {
            Err(e) => {
                return Err(e);
            },
            Ok(d) => {
                values::push(&mut parsed, d);
            },
        }
        k += 1;
    }
    Ok(merge_dexes(parsed))
}

/// Merge every DEX that was gathered from the inputs, `blobs` being those of each input.
pub fn parse_inputs(blobs: Vec<Vec<Vec<u8>>>) -> (r: Result<Dex, InputError>)
    ensures
        match r {
            Ok(d) => blobs@.len() > 0 && d.wf() && all_blobs(blobs.deep_view(), 0, Seq::empty()).len()
                > 0 && blobs_dex(all_blobs(blobs.deep_view(), 0, Seq::empty())) == Ok::<
                DexV,
                DexError,
            >(d.deep_view()),
            Err(InputError::NoInputs) => blobs@.len() == 0,
            Err(InputError::NoDex) => blobs@.len() > 0 && all_blobs(
                blobs.deep_view(),
                0,
                Seq::empty(),
            ).len() == 0,
            Err(InputError::Bad(e)) => blobs@.len() > 0 && all_blobs(
                blobs.deep_view(),
                0,
                Seq::empty(),
            ).len() > 0 && blobs_dex(all_blobs(blobs.deep_view(), 0, Seq::empty())) == Err::<
                DexV,
                DexError,
            >(e),
        },
{
    if blobs.len() == 0 {
        return Err(InputError::NoInputs);
    }
    let ghost bv = blobs.deep_view();
    let mut rest = sort::reversed(blobs);
    let mut all: Vec<Vec<u8>> = values::empty();
    let ghost mut k: int = 0;
    while rest.len() > 0
        invariant
            0 <= k <= bv.len(),
            rest.deep_view() == bv.skip(k).reverse(),
            all_blobs(bv, 0, Seq::empty()) == all_blobs(bv, k, all.deep_view()),
        decreases rest@.len(),
    {
        let ghost rv = rest.deep_view();
        proof {
            assert(rv.len() == rest@.len());
            assert(rv[rv.len() - 1] == bv[k]);
        }
        match rest.pop() {
            None => {},
            Some(list) => {
                let ghost a = all.deep_view();
                let ghost l = list.deep_view();
                proof {
                    assert(l == bv[k]);
                    assert(rest.deep_view() =~= rv.drop_last());
                    assert(rv.drop_last() =~= bv.skip(k + 1).reverse());
                }
                let mut list = list;
                all.append(&mut list);
                proof {
                    assert(all.deep_view() =~= a + l);
                    k = k + 1;
                }
            },
        }
    }
    proof {
        assert(all.deep_view().len() == all@.len());
    }
    if all.len() == 0 {
        return Err(InputError::NoDex);
    }
    match parse_blobs(all) {
        Ok(d) => Ok(d),
        Err(e) => Err(InputError::Bad(e)),
    }
}

/// The blobs of the inputs from the `k`th on, behind `acc`.
pub open spec fn all_blobs(lists: Seq<Seq<Seq<u8>>>, k: int, acc: Seq<Seq<u8>>) -> Seq<Seq<u8>>
    decreases lists.len() - k,
{
    if k >= lists.len() {
        acc
    } else {
        all_blobs(lists, k + 1, acc + lists[k])
    }
}

} // verus!
