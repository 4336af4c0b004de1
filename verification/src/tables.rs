//! What the table side promises: which observations are selected, how records become
//! observations and back, how they are grouped, and what each site is answered with.

use crate::csv_io;
use crate::csv_io::{CsvErrorV, KeyV, TableV};
use crate::dex::named;
use crate::dex::resolve;
use crate::dex::resolve::SiteV;
use crate::model::{ContentionV, Query};
use crate::names;
use crate::pipeline;
use crate::resolver;
use crate::resolver::Options;
use crate::site;
use crate::sort;
use crate::text;
use crate::traces;
use vstd::prelude::*;

verus! {

/// The observation is of the build and the device that the query restricts to.
pub open spec fn matches(q: Query) -> spec_fn(ContentionV) -> bool {
    |r: ContentionV|
        (q.build_id is None || r.build_id == q.build_id->0@) && (q.device is None || r.device
            == q.device->0@)
}

proof fn lemma_wanted(q: Query, rows: Seq<ContentionV>, k: int)
    requires
        0 <= k <= rows.len(),
    ensures
        traces::wanted_from(q, rows, k, rows.take(k).filter(matches(q))) == rows.filter(matches(q)),
    decreases rows.len() - k,
{
    reveal(Seq::filter);
    if k < rows.len() {
        lemma_wanted(q, rows, k + 1);
        assert(rows.take(k + 1).drop_last() =~= rows.take(k));
        assert(rows.take(k + 1).last() == rows[k]);
    } else {
        assert(rows.take(k) =~= rows);
    }
}

/// A query selects every observation of its build and its device, in their order, and only
/// the first of them where there are more than its limit.
pub proof fn law_selection_is_the_first_matches(q: Query, rows: Seq<ContentionV>)
    ensures
        ({
            let all = rows.filter(matches(q));
            traces::selected(q, rows) == if q.limit == 0 || all.len() <= q.limit {
                all
            } else {
                all.take(q.limit as int)
            }
        }),
{
    reveal(Seq::filter);
    assert(rows.take(0).filter(matches(q)) =~= Seq::empty());
    lemma_wanted(q, rows, 0);
}

proof fn lemma_first(list: Seq<Seq<char>>, name: Seq<char>, k: int)
    requires
        0 <= k,
    ensures
        match csv_io::first_from(list, name, k) {
            Some(i) => k <= i < list.len() && list[i] == name && forall|j: int|
                k <= j < i ==> #[trigger] list[j] != name,
            None => forall|j: int| k <= j < list.len() ==> #[trigger] list[j] != name,
        },
    decreases list.len() - k,
{
    if k < list.len() && list[k] != name {
        lemma_first(list, name, k + 1);
    }
}

/// Each of the six columns is read by its name, from the first column that has it, without
/// the white space around the field; the record is kept, and no lock is known yet.
pub proof fn law_columns_are_read_by_name(headers: Seq<Seq<char>>, record: Seq<Seq<char>>, i: int)
    requires
        0 <= i < headers.len(),
        i < record.len(),
        forall|j: int| 0 <= j < i ==> #[trigger] headers[j] != headers[i],
    ensures
        ({
            let o = csv_io::observation(headers, record);
            let f = text::trimmed(record[i]);
            &&& headers[i] == "build_id"@ ==> o.build_id == f
            &&& headers[i] == "device_name"@ ==> o.device == f
            &&& headers[i] == "blocked_src"@ ==> o.blocked_src == f
            &&& headers[i] == "blocking_src"@ ==> o.blocking_src == f
            &&& headers[i] == "short_blocked_method"@ ==> o.short_blocked_method == f
            &&& headers[i] == "short_blocking_method"@ ==> o.short_blocking_method == f
            &&& o.raw == record
            &&& o.resolved_blocked_lock == "N/A"@
            &&& o.resolved_blocking_lock == "N/A"@
        }),
{
    lemma_first(headers, headers[i], 0);
}

proof fn lemma_lacks(headers: Seq<Seq<char>>, i: int)
    requires
        0 <= i <= 6,
    ensures
        match csv_io::lacks(headers, i) {
            Some(n) => exists|j: int| i <= j < 6 && n == #[trigger] csv_io::column_name(j) && !headers.contains(n),
            None => forall|j: int| i <= j < 6 ==> headers.contains(#[trigger] csv_io::column_name(j)),
        },
    decreases 6 - i,
{
    if i < 6 {
        let n = csv_io::column_name(i);
        lemma_first(headers, n, 0);
        if csv_io::first(headers, n) is Some {
            let p = csv_io::first(headers, n)->0;
            assert(headers[p] == n);
            lemma_lacks(headers, i + 1);
        } else {
            assert(!headers.contains(n));
        }
    }
}

/// A table is read exactly where its header has each of the six columns and every record
/// could be read: it then has an observation for each record, in their order. A missing
/// column is named.
pub proof fn law_tables_need_six_columns(
    headers: Seq<Seq<char>>,
    records: Seq<Seq<Seq<char>>>,
    e: Seq<char>,
)
    ensures
        ({
            let whole = headers.contains("build_id"@) && headers.contains("device_name"@)
                && headers.contains("blocked_src"@) && headers.contains("blocking_src"@)
                && headers.contains("short_blocked_method"@) && headers.contains(
                "short_blocking_method"@,
            );
            let r = csv_io::tabulated(headers, Ok(records));
            &&& r is Ok <==> whole
            &&& r matches Ok(t) ==> {
                &&& t.headers == headers
                &&& t.rows.len() == records.len()
                &&& forall|i: int|
                    0 <= i < records.len() ==> #[trigger] t.rows[i] == csv_io::observation(
                        headers,
                        records[i],
                    )
            }
            &&& r matches Err(x) ==> (x matches CsvErrorV::Missing(n) && !headers.contains(n))
            &&& whole ==> csv_io::tabulated(headers, Err(e)) == Err::<TableV, CsvErrorV>(
                CsvErrorV::Parse(e),
            )
        }),
{
    lemma_lacks(headers, 0);
    assert(csv_io::column_name(0) == "build_id"@);
    assert(csv_io::column_name(1) == "device_name"@);
    assert(csv_io::column_name(2) == "blocked_src"@);
    assert(csv_io::column_name(3) == "blocking_src"@);
    assert(csv_io::column_name(4) == "short_blocked_method"@);
    assert(csv_io::column_name(5) == "short_blocking_method"@);
}

/// The aggregate's table says what each of its columns holds: the two locks, the two methods
/// and the number of traces, under those names.
pub proof fn law_compact_columns(rows: Seq<ContentionV>, headers: Seq<Seq<char>>, i: int)
    requires
        0 <= i < csv_io::aggregate(rows).len(),
    ensures
        ({
            let out = csv_io::output(headers, rows, true);
            let (k, n) = csv_io::aggregate(rows)[i];
            &&& out.len() == csv_io::aggregate(rows).len() + 1
            &&& out[0] == seq![
                "resolved_blocked_lock"@,
                "resolved_blocking_lock"@,
                "short_blocked_method"@,
                "short_blocking_method"@,
                "traces"@,
            ]
            &&& out[i + 1] == seq![
                k.blocked_lock,
                k.blocking_lock,
                k.blocked_method,
                k.blocking_method,
                text::dec(n as nat),
            ]
        }),
{
}

/// The observation has those locks and methods.
pub open spec fn is_of(k: KeyV) -> spec_fn(ContentionV) -> bool {
    |r: ContentionV|
        r.resolved_blocked_lock == k.blocked_lock && r.resolved_blocking_lock == k.blocking_lock
            && r.short_blocked_method == k.blocked_method && r.short_blocking_method
            == k.blocking_method
}

proof fn lemma_key_count(rows: Seq<ContentionV>, k: KeyV)
    ensures
        csv_io::keys_of(rows).to_multiset().count(k) == rows.filter(is_of(k)).len(),
    decreases rows.len(),
{
    broadcast use vstd::seq_lib::group_to_multiset_ensures;

    reveal(Seq::filter);
    let ks = csv_io::keys_of(rows);
    if rows.len() > 0 {
        lemma_key_count(rows.drop_last(), k);
        let front = csv_io::keys_of(rows.drop_last());
        assert(ks =~= front.push(csv_io::key_of(rows.last())));
        let key = csv_io::key_of(rows.last());
        assert(is_of(k)(rows.last()) <==> key == k);
    } else {
        assert(ks =~= Seq::empty());
    }
}

/// The aggregate has each combination of locks and methods that occurs, once and with the
/// number of observations that have it, and those that occur more often come first.
pub proof fn law_aggregate_counts_observations(rows: Seq<ContentionV>, i: int, j: int)
    requires
        rows.len() <= u64::MAX,
        0 <= i < csv_io::aggregate(rows).len(),
        0 <= j < rows.len(),
    ensures
        ({
            let a = csv_io::aggregate(rows);
            &&& a[i].1 == rows.filter(is_of(a[i].0)).len()
            &&& exists|x: int| 0 <= x < a.len() && is_of((#[trigger] a[x]).0)(rows[j])
            &&& forall|x: int, y: int|
                0 <= x < y < a.len() ==> (#[trigger] a[x]).1 >= (#[trigger] a[y]).1 && a[x].0 != a[y].0
        }),
{
    csv_io::law_aggregate_counts_traces(rows);
    let a = csv_io::aggregate(rows);
    let ks = csv_io::keys_of(rows);
    lemma_key_count(rows, a[i].0);
    assert(ks[j] == csv_io::key_of(rows[j]));
    assert(ks.contains(ks[j]));
    let x = choose|x: int| 0 <= x < a.len() && (#[trigger] a[x]).0 == ks[j];
    assert(is_of(a[x].0)(rows[j]));
    assert forall|x: int, y: int| 0 <= x < y < a.len() implies (#[trigger] a[x]).1 >= (
    #[trigger] a[y]).1 && a[x].0 != a[y].0 by {
        assert(csv_io::more_first()(a[x], a[y]));
    }
}

/// The plan's groups come largest first; two observations are in one group exactly where they
/// are of one build and one device.
pub proof fn law_groups_are_builds_on_devices(rows: Seq<ContentionV>, a: int, b: int, i: int, j: int)
    requires
        rows.len() <= usize::MAX,
        0 <= a < pipeline::planned(rows).len(),
        0 <= b < pipeline::planned(rows).len(),
        0 <= i < pipeline::planned(rows)[a].rows.len(),
        0 <= j < pipeline::planned(rows)[b].rows.len(),
    ensures
        ({
            let gs = pipeline::planned(rows);
            let x = rows[gs[a].rows[i] as int];
            let y = rows[gs[b].rows[j] as int];
            &&& a == b <==> x.build_id == y.build_id && x.device == y.device
            &&& gs[a].build_id == x.build_id && gs[a].device == x.device
            &&& a <= b ==> gs[a].rows.len() >= gs[b].rows.len()
        }),
{
    pipeline::law_plan_partitions_the_rows(rows);
    let gs = pipeline::planned(rows);
    assert(pipeline::belongs(rows[gs[a].rows[i] as int], gs[a]));
    assert(pipeline::belongs(rows[gs[b].rows[j] as int], gs[b]));
    if a < b {
        assert(pipeline::larger_first()(gs[a], gs[b]));
        assert(gs[a].build_id != gs[b].build_id || gs[a].device != gs[b].device);
    }
    if b < a {
        assert(gs[b].build_id != gs[a].build_id || gs[b].device != gs[a].device);
    }
}

proof fn lemma_with_site(acc: Seq<Seq<char>>, x: Seq<char>, s: Seq<char>)
    ensures
        pipeline::with_site(acc, x).contains(s) <==> acc.contains(s) || (s == x && site::parsed(
            x,
        ) is Some),
{
    names::lemma_with(acc, x);
}

proof fn lemma_sites_from(
    rows: Seq<ContentionV>,
    list: Seq<usize>,
    k: int,
    acc: Seq<Seq<char>>,
    s: Seq<char>,
)
    requires
        0 <= k,
    ensures
        pipeline::sites_from(rows, list, k, acc).contains(s) <==> acc.contains(s) || (site::parsed(
            s,
        ) is Some && exists|i: int|
            k <= i < list.len() && (rows[#[trigger] list[i] as int].blocked_src == s
                || rows[list[i] as int].blocking_src == s)),
    decreases list.len() - k,
{
    if k < list.len() {
        let r = rows[list[k] as int];
        let one = pipeline::with_site(acc, r.blocked_src);
        let two = pipeline::with_site(one, r.blocking_src);
        lemma_with_site(acc, r.blocked_src, s);
        lemma_with_site(one, r.blocking_src, s);
        lemma_sites_from(rows, list, k + 1, two, s);
    }
}

/// The sites of a group are exactly the two sites of each of its observations that name a
/// source line.
pub proof fn law_group_sites_are_those_of_its_rows(
    rows: Seq<ContentionV>,
    list: Seq<usize>,
    s: Seq<char>,
)
    ensures
        pipeline::sites_from(rows, list, 0, Seq::empty()).contains(s) <==> site::parsed(s) is Some
            && exists|i: int|
            0 <= i < list.len() && (rows[#[trigger] list[i] as int].blocked_src == s
                || rows[list[i] as int].blocking_src == s),
{
    lemma_sites_from(rows, list, 0, Seq::empty(), s);
}

/// Filling a group's rows in gives each of them the lock of where it was blocked and the lock
/// of where it was blocking, changes nothing else of them, and no other row.
pub proof fn law_rows_are_filled_with_their_locks(
    rows: Seq<ContentionV>,
    list: Seq<usize>,
    sites: Seq<SiteV>,
    opts: Options,
    i: int,
)
    requires
        0 <= i < rows.len() <= usize::MAX,
    ensures
        ({
            let out = pipeline::filled(rows, list, sites, opts);
            &&& out.len() == rows.len()
            &&& !list.contains(i as usize) ==> out[i] == rows[i]
            &&& list.contains(i as usize) ==> {
                &&& out[i].resolved_blocked_lock == resolver::lock_name(sites, opts, rows[i].blocked_src)
                &&& out[i].resolved_blocking_lock == resolver::lock_name(
                    sites,
                    opts,
                    rows[i].blocking_src,
                )
                &&& out[i].build_id == rows[i].build_id && out[i].device == rows[i].device
                &&& out[i].blocked_src == rows[i].blocked_src && out[i].blocking_src
                    == rows[i].blocking_src
                &&& out[i].short_blocked_method == rows[i].short_blocked_method
                &&& out[i].short_blocking_method == rows[i].short_blocking_method
                &&& out[i].raw == rows[i].raw
            }
        }),
{
}

proof fn lemma_listed(list: Seq<Seq<char>>, k: int, acc: Seq<char>, x: Seq<char>)
    requires
        0 <= k <= list.len(),
        list.len() > 0,
    ensures
        resolver::listed_from(list.push(x), k, acc) == resolver::listed_from(list, k, acc) + ", "@ + x,
    decreases list.len() - k,
{
    let more = list.push(x);
    if k < list.len() {
        let next = if k == 0 {
            acc + list[k]
        } else {
            acc + ", "@ + list[k]
        };
        lemma_listed(list, k + 1, next, x);
        assert(more[k] == list[k]);
    } else {
        assert(more[k] == x);
        assert(resolver::listed_from(more, k + 1, acc + ", "@ + x) == acc + ", "@ + x);
    }
}

/// Several locks are listed one behind the other, with a comma and a space between two.
pub proof fn law_locks_are_listed_with_commas(list: Seq<Seq<char>>, x: Seq<char>)
    ensures
        resolver::listed(seq![x]) == x,
        list.len() > 0 ==> resolver::listed(list.push(x)) == resolver::listed(list) + ", "@ + x,
{
    reveal_with_fuel(resolver::listed_from, 2);
    assert(Seq::<char>::empty() + x =~= x);
    if list.len() > 0 {
        lemma_listed(list, 0, Seq::empty(), x);
    }
}

/// A digit is a digit and neither white space nor a colon nor a bracket.
proof fn lemma_digit(d: nat)
    requires
        d < 10,
    ensures
        text::is_digit(text::digit(d)),
        !text::is_space(text::digit(d)),
        text::digit(d) != ':',
        text::digit(d) != '<',
        text::digit(d) != '-',
        text::digit(d) != '+',
        text::digit(d) as nat - 48 == d,
{
}

/// A number is written in decimal digits, and they are read back as that number.
pub proof fn law_decimals_read_back(n: nat)
    ensures
        text::dec(n).len() > 0,
        forall|i: int| 0 <= i < text::dec(n).len() ==> '0' <= #[trigger] text::dec(n)[i] <= '9',
        text::digits_value(text::dec(n)) == n,
        n <= i64::MAX ==> text::number(text::dec(n)) == Some(n as i64),
    decreases n,
{
    let s = text::dec(n);
    lemma_digit(n % 10);
    if n < 10 {
        assert(s.drop_last() =~= Seq::empty());
        assert(text::digits_value(s.drop_last()) == 0);
    } else {
        law_decimals_read_back(n / 10);
        assert(s.drop_last() =~= text::dec(n / 10));
        assert(n == n / 10 * 10 + n % 10);
        assert forall|i: int| 0 <= i < s.len() implies '0' <= #[trigger] s[i] <= '9' by {
            if i < s.len() - 1 {
                assert(s[i] == text::dec(n / 10)[i]);
            }
        }
    }
    assert(s[0] != '-' && s[0] != '+');
    assert(text::all_digits(s));
}

/// A text that neither starts nor ends with white space is its own trimming.
pub proof fn law_trimming_keeps_what_is_inside(s: Seq<char>)
    ensures
        s.len() > 0 && !text::is_space(s[0]) && !text::is_space(s.last()) ==> text::trimmed(s) == s,
        text::trimmed(s).len() > 0 ==> !text::is_space(text::trimmed(s)[0]) && !text::is_space(
            text::trimmed(s).last(),
        ),
        text::trimmed(seq![' '] + s) == text::trimmed(s),
        exists|a: Seq<char>, b: Seq<char>| s == #[trigger] (a + text::trimmed(s) + b),
{
    let t = text::trim_start(s);
    lemma_trim_start(s);
    lemma_trim_end(t);
    let a = choose|a: Seq<char>| s == #[trigger] (a + t);
    let b = choose|b: Seq<char>| t == #[trigger] (text::trim_end(t) + b);
    assert(s =~= a + text::trimmed(s) + b);
    let p = seq![' '] + s;
    assert(p[0] == ' ');
    assert(text::is_space(' '));
    assert(p.skip(1) =~= s);
}

proof fn lemma_trim_start(s: Seq<char>)
    ensures
        text::trim_start(s).len() > 0 ==> !text::is_space(text::trim_start(s)[0]),
        exists|a: Seq<char>| s == #[trigger] (a + text::trim_start(s)),
    decreases s.len(),
{
    if s.len() > 0 && text::is_space(s[0]) {
        lemma_trim_start(s.skip(1));
        let a = choose|a: Seq<char>| s.skip(1) == #[trigger] (a + text::trim_start(s.skip(1)));
        let t = text::trim_start(s.skip(1));
        assert(s =~= seq![s[0]] + s.skip(1));
        assert(seq![s[0]] + (a + t) =~= (seq![s[0]] + a) + t);
        assert(s == (seq![s[0]] + a) + text::trim_start(s));
    } else {
        assert(s =~= Seq::<char>::empty() + text::trim_start(s));
    }
}

proof fn lemma_trim_end(s: Seq<char>)
    ensures
        text::trim_end(s).len() > 0 ==> !text::is_space(text::trim_end(s).last()),
        text::trim_end(s).len() > 0 ==> s.len() > 0 && text::trim_end(s)[0] == s[0],
        exists|b: Seq<char>| s == #[trigger] (text::trim_end(s) + b),
    decreases s.len(),
{
    if s.len() > 0 && text::is_space(s.last()) {
        lemma_trim_end(s.drop_last());
        let b = choose|b: Seq<char>| s.drop_last() == #[trigger] (text::trim_end(s.drop_last()) + b);
        let t = text::trim_end(s.drop_last());
        assert(s =~= s.drop_last().push(s.last()));
        assert((t + b).push(s.last()) =~= t + b.push(s.last()));
        assert(s == text::trim_end(s) + b.push(s.last()));
    } else {
        assert(s =~= text::trim_end(s) + Seq::<char>::empty());
    }
}

/// A site that is a file, a colon and a line names that file and that line.
pub proof fn law_sites_name_a_file_and_a_line(file: Seq<char>, line: nat)
    requires
        file.len() > 0,
        !file.contains('<'),
        !text::is_space(file[0]),
        line <= i64::MAX,
    ensures
        site::parsed(file + seq![':'] + text::dec(line)) == Some((file, line as i64)),
{
    let n = text::dec(line);
    let s = file + seq![':'] + n;
    law_decimals_read_back(line);
    assert(s.last() == n.last());
    assert(s[0] == file[0]);
    assert('0' <= n[n.len() - 1] <= '9');
    assert('0' <= n[0] <= '9');
    law_trimming_keeps_what_is_inside(s);
    law_trimming_keeps_what_is_inside(n);
    assert(!n.contains(':')) by {
        if n.contains(':') {
            let i = choose|i: int| 0 <= i < n.len() && n[i] == ':';
            assert('0' <= n[i] <= '9');
        }
    }
    named::lemma_last_index(file, ':', n);
    assert(!s.contains('<')) by {
        if s.contains('<') {
            let i = choose|i: int| 0 <= i < s.len() && s[i] == '<';
            if i < file.len() {
                assert(file[i] == '<');
            } else if i > file.len() {
                assert('0' <= n[i - file.len() - 1] <= '9');
            }
        }
    }
    assert(s.skip((file.len() + 1) as int) =~= n);
    assert(s.take(file.len() as int) =~= file);
}

/// A synthetic site, and one without a colon, name nothing.
pub proof fn law_synthetic_sites_name_nothing(s: Seq<char>)
    requires
        s.len() > 0,
        !text::is_space(s[0]),
        !text::is_space(s.last()),
        s.contains('<') || !s.contains(':'),
    ensures
        site::parsed(s) is None,
{
    law_trimming_keeps_what_is_inside(s);
    if !s.contains(':') {
        named::lemma_last_index(Seq::empty(), ':', s);
    }
}

/// A site is answered with the locks of its line, listed, and with `N/A` where it names no
/// line or its line has no lock.
pub proof fn law_sites_are_answered_with_their_locks(
    sites: Seq<SiteV>,
    opts: Options,
    file: Seq<char>,
    line: nat,
)
    requires
        file.len() > 0,
        !file.contains('<'),
        !text::is_space(file[0]),
        line <= i64::MAX,
    ensures
        ({
            let locks = resolve::resolved(sites, file, line as i64, opts.fuzz, opts.if_unique);
            resolver::lock_name(sites, opts, file + seq![':'] + text::dec(line)) == if locks.len()
                == 0 {
                "N/A"@
            } else {
                resolver::listed(locks)
            }
        }),
        forall|s: Seq<char>| site::parsed(s) is None ==> #[trigger] resolver::lock_name(sites, opts, s)
            == "N/A"@,
{
    law_sites_name_a_file_and_a_line(file, line);
}

/// A name is made safe letter by letter: letters, digits, dots, dashes and underscores stay,
/// and an underscore stands for anything else.
pub proof fn law_safe_letters_stay(s: Seq<char>, i: int)
    requires
        0 <= i < s.len(),
    ensures
        ({
            let c = s[i];
            let stays = 'a' <= c <= 'z' || 'A' <= c <= 'Z' || '0' <= c <= '9' || c == '.' || c == '-'
                || c == '_';
            &&& resolver::sanitized(s).len() == s.len()
            &&& resolver::sanitized(s)[i] == if stays {
                c
            } else {
                '_'
            }
        }),
{
}

/// Dictionary order goes by the first letter that differs; a text comes before every longer
/// one that it begins.
pub proof fn law_dictionary_order(p: Seq<char>, a: Seq<char>, b: Seq<char>)
    ensures
        text::lex_le(p, p + b),
        b.len() > 0 ==> !text::lex_le(p + b, p),
        a.len() > 0 && b.len() > 0 && (a[0] as int) < (b[0] as int) ==> text::lex_le(p + a, p + b)
            && !text::lex_le(p + b, p + a),
    decreases p.len(),
{
    if p.len() > 0 {
        law_dictionary_order(p.skip(1), a, b);
        assert((p + a).skip(1) =~= p.skip(1) + a);
        assert((p + b).skip(1) =~= p.skip(1) + b);
        assert((p + a)[0] == p[0] && (p + b)[0] == p[0]);
    } else {
        assert(p + a =~= a);
        assert(p + b =~= b);
    }
}

/// The keys of an aggregate stand by the blocked lock, those of one by the blocking lock, then by
/// the blocked method, then by the blocking method.
pub proof fn law_keys_stand_by_locks_then_methods(rows: Seq<ContentionV>, i: int, j: int)
    requires
        0 <= i < j < rows.len(),
    ensures
        ({
            let r = sort::sorted(csv_io::keys_of(rows), csv_io::key_le());
            let (a, b) = (r[i], r[j]);
            &&& text::lex_le(a.blocked_lock, b.blocked_lock)
            &&& a.blocked_lock == b.blocked_lock ==> text::lex_le(a.blocking_lock, b.blocking_lock)
            &&& a.blocked_lock == b.blocked_lock && a.blocking_lock == b.blocking_lock ==> text::lex_le(
                a.blocked_method,
                b.blocked_method,
            )
            &&& a.blocked_lock == b.blocked_lock && a.blocking_lock == b.blocking_lock
                && a.blocked_method == b.blocked_method ==> text::lex_le(
                a.blocking_method,
                b.blocking_method,
            )
        }),
{
    text::lemma_lex_order();
    let le = csv_io::key_le();
    sort::lemma_sorted(csv_io::keys_of(rows), le);
    let r = sort::sorted(csv_io::keys_of(rows), le);
    assert(le(r[i], r[j]));
}

} // verus!
