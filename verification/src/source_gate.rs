//! Source file size limit: every Rust source file stays under a hard line
//! limit, and files that were already over it when the limit was adopted
//! are tolerated only while they stay over it, so the exception list can
//! only shrink.
//!
//! This module holds the arithmetic of the line limit: counting lines,
//! ranking offenders worst first, and writing the verdict. Walking the
//! directory tree and reading files is done by the caller.

use vstd::prelude::*;
use vstd::multiset::Multiset;
use crate::text::{count_char, decimal, push_char, push_decimal};

verus! {

broadcast use vstd::string::group_string_axioms, vstd::seq_lib::group_to_multiset_ensures;

/// The hard limit on physical lines per source file.
pub const HARD_LIMIT: usize = 800;

/// A source file over the limit: manifest-relative path (forward slashes)
/// and its total physical line count.
#[derive(Debug, Clone, PartialEq, Eq)]
pub struct Oversized {
    pub path: String,
    pub lines: usize,
}

/// Number of physical lines in `text`, as `str::lines` counts them: every
/// line feed ends a line, and text after the last line feed is one more.
pub open spec fn line_count(text: Seq<char>) -> nat {
    count_char(text, '\n') + if text.len() > 0 && text.last() != '\n' { 1nat } else { 0nat }
}

/// Counts every physical line in `source`, blank ones included.
pub fn source_lines(source: &str) -> (lines: usize)
    ensures
        lines == line_count(source@),
{
    let total = source.unicode_len();
    let mut n: usize = 0;
    let mut last_is_newline = false;
    for ch in it: source.chars()
        invariant
            it.seq() == source@,
            total == source@.len(),
            n == count_char(it.seq().take(it.index()), '\n'),
            n <= it.index(),
            it.index() > 0 && !last_is_newline ==> n < it.index(),
            it.index() > 0 ==> last_is_newline == (source@[it.index() - 1] == '\n'),
    {
        assert(it.seq().take(it.index() + 1).drop_last() =~= it.seq().take(it.index()));
        if ch == '\n' {
            n = n + 1;
        }
        last_is_newline = ch == '\n';
    }
    assert(source@.take(source@.len() as int) =~= source@);
    if total > 0 && !last_is_newline {
        n + 1
    } else {
        n
    }
}

/// `a` sorts strictly before `b`, character by character, a proper prefix
/// first.
pub open spec fn path_lt(a: Seq<char>, b: Seq<char>) -> bool
    decreases a.len(),
{
    if a.len() == 0 {
        b.len() > 0
    } else if b.len() == 0 {
        false
    } else if a[0] != b[0] {
        a[0] < b[0]
    } else {
        path_lt(a.drop_first(), b.drop_first())
    }
}

/// No path sorts before itself.
pub proof fn lemma_path_order_irreflexive(a: Seq<char>)
    ensures
        !path_lt(a, a),
    decreases a.len(),
{
    if a.len() > 0 {
        lemma_path_order_irreflexive(a.drop_first());
    }
}

/// Exactly one of `a < b`, `a == b`, `b < a` holds.
pub proof fn lemma_path_order_total(a: Seq<char>, b: Seq<char>)
    ensures
        path_lt(a, b) || a == b || path_lt(b, a),
        !(path_lt(a, b) && path_lt(b, a)),
        !path_lt(a, a),
    decreases a.len(),
{
    lemma_path_order_irreflexive(a);
    if a.len() > 0 && b.len() > 0 {
        lemma_path_order_total(a.drop_first(), b.drop_first());
        if a[0] == b[0] && a.drop_first() == b.drop_first() {
            assert(a =~= seq![a[0]] + a.drop_first());
            assert(b =~= seq![b[0]] + b.drop_first());
        }
    } else if a.len() == 0 && b.len() == 0 {
        assert(a =~= b);
    }
}

pub proof fn lemma_path_order_transitive(a: Seq<char>, b: Seq<char>, c: Seq<char>)
    requires
        path_lt(a, b),
        path_lt(b, c),
    ensures
        path_lt(a, c),
    decreases a.len(),
{
    if a.len() > 0 && a[0] == b[0] && b[0] == c[0] {
        lemma_path_order_transitive(a.drop_first(), b.drop_first(), c.drop_first());
    }
}

/// The sort key of an offender: its path and its line count.
pub open spec fn entry(o: Oversized) -> (Seq<char>, nat) {
    (o.path@, o.lines as nat)
}

pub open spec fn entries(v: Seq<Oversized>) -> Seq<(Seq<char>, nat)> {
    v.map_values(|o: Oversized| entry(o))
}

/// `a` may come before `b` in the report: more lines first, and among equal
/// counts the paths in order.
pub open spec fn ranks_no_later(a: (Seq<char>, nat), b: (Seq<char>, nat)) -> bool {
    a.1 > b.1 || (a.1 == b.1 && !path_lt(b.0, a.0))
}

/// Entries whose count exceeds `limit`, in the order given.
pub open spec fn over_limit(v: Seq<(Seq<char>, nat)>, limit: nat) -> Seq<(Seq<char>, nat)> {
    v.filter(|e: (Seq<char>, nat)| e.1 > limit)
}

/// Worst first, then by path.
pub open spec fn worst_first_order(v: Seq<(Seq<char>, nat)>) -> bool {
    forall|i: int, j: int| 0 <= i < j < v.len() ==> ranks_no_later(#[trigger] v[i], #[trigger] v[j])
}

proof fn lemma_ranks_total(a: (Seq<char>, nat), b: (Seq<char>, nat))
    ensures
        ranks_no_later(a, b) || ranks_no_later(b, a),
{
    lemma_path_order_total(a.0, b.0);
}

proof fn lemma_ranks_transitive(a: (Seq<char>, nat), b: (Seq<char>, nat), c: (Seq<char>, nat))
    requires
        ranks_no_later(a, b),
        ranks_no_later(b, c),
    ensures
        ranks_no_later(a, c),
{
    lemma_path_order_total(a.0, b.0);
    lemma_path_order_total(b.0, c.0);
    lemma_path_order_total(a.0, c.0);
    if a.1 == b.1 && b.1 == c.1 && path_lt(c.0, a.0) {
        if path_lt(b.0, c.0) {
            lemma_path_order_transitive(b.0, c.0, a.0);
        } else if b.0 == c.0 {
        } else {
            if path_lt(a.0, b.0) {
                lemma_path_order_transitive(c.0, a.0, b.0);
            }
        }
    }
}

/// The characters of a string, in order.
pub fn chars_of(s: &str) -> (v: Vec<char>)
    ensures
        v@ == s@,
{
    let mut v: Vec<char> = Vec::new();
    for ch in it: s.chars()
        invariant
            it.seq() == s@,
            v@ == s@.take(it.index()),
    {
        v.push(ch);
        assert(v@ =~= s@.take(it.index() + 1));
    }
    assert(s@.take(s@.len() as int) =~= s@);
    v
}

fn chars_lt(a: &Vec<char>, b: &Vec<char>) -> (lt: bool)
    ensures
        lt == path_lt(a@, b@),
{
    let mut i: usize = 0;
    assert(a@.skip(0) =~= a@);
    assert(b@.skip(0) =~= b@);
    while i < a.len() && i < b.len() && a[i] == b[i]
        invariant
            i <= a@.len(),
            i <= b@.len(),
            path_lt(a@, b@) == path_lt(a@.skip(i as int), b@.skip(i as int)),
        decreases a@.len() - i,
    {
        assert(a@.skip(i as int).drop_first() =~= a@.skip(i + 1));
        assert(b@.skip(i as int).drop_first() =~= b@.skip(i + 1));
        i = i + 1;
    }
    if i == a.len() {
        i < b.len()
    } else if i == b.len() {
        false
    } else {
        a[i] < b[i]
    }
}

fn ranks_no_later_exec(a: &Oversized, b: &Oversized) -> (r: bool)
    ensures
        r == ranks_no_later(entry(*a), entry(*b)),
{
    if a.lines != b.lines {
        a.lines > b.lines
    } else {
        let pa = chars_of(a.path.as_str());
        let pb = chars_of(b.path.as_str());
        !chars_lt(&pb, &pa)
    }
}

proof fn lemma_entries_push(s: Seq<Oversized>, o: Oversized)
    ensures
        entries(s.push(o)) == entries(s).push(entry(o)),
{
    assert(entries(s.push(o)) =~= entries(s).push(entry(o)));
}

proof fn lemma_over_limit_push(v: Seq<(Seq<char>, nat)>, e: (Seq<char>, nat), limit: nat)
    ensures
        over_limit(v.push(e), limit) == if e.1 > limit { over_limit(v, limit).push(e) } else { over_limit(v, limit) },
{
    reveal_with_fuel(Seq::filter, 1);
    assert(v.push(e).drop_last() =~= v);
}

/// The offenders in `found` whose count exceeds `limit`, worst first and
/// then by path.
pub fn worst_first(found: Vec<Oversized>, limit: usize) -> (ranked: Vec<Oversized>)
    ensures
        entries(ranked@).to_multiset() == over_limit(entries(found@), limit as nat).to_multiset(),
        worst_first_order(entries(ranked@)),
{
    let ghost given = found@;
    let mut rest = found;
    let mut out: Vec<Oversized> = Vec::new();
    while rest.len() > 0
        invariant
            given == rest@ + (given.skip(rest@.len() as int)),
            rest@.len() <= given.len(),
            entries(out@).to_multiset().add(over_limit(entries(rest@), limit as nat).to_multiset())
                == over_limit(entries(given), limit as nat).to_multiset(),
            worst_first_order(entries(out@)),
        decreases rest@.len(),
    {
        let ghost before = rest@;
        let item = rest.pop().unwrap();
        proof {
            assert(before =~= rest@.push(item));
            lemma_entries_push(rest@, item);
            lemma_over_limit_push(entries(rest@), entry(item), limit as nat);
            assert(given =~= rest@ + given.skip(rest@.len() as int)) by {
                assert(given.skip(rest@.len() as int) =~= seq![item] + given.skip(before.len() as int));
            }
        }
        if item.lines > limit {
            let ghost out_before = out@;
            let mut p: usize = 0;
            while p < out.len() && ranks_no_later_exec(&out[p], &item)
                invariant
                    p <= out@.len(),
                    out@ == out_before,
                    forall|k: int| 0 <= k < p ==> ranks_no_later(entry(#[trigger] out@[k]), entry(item)),
                decreases out@.len() - p,
            {
                p = p + 1;
            }
            proof {
                if p < out@.len() {
                    lemma_ranks_total(entry(out@[p as int]), entry(item));
                }
            }
            out.insert(p, item);
            proof {
                let es = entries(out@);
                let eb = entries(out_before);
                assert(es =~= eb.insert(p as int, entry(item)));
                assert forall|j: int| p < j < es.len() implies ranks_no_later(entry(item), #[trigger] es[j]) by {
                    assert(es[j] == eb[j - 1]);
                    assert(ranks_no_later(entry(item), eb[p as int]));
                    if p < j - 1 {
                        assert(ranks_no_later(eb[p as int], eb[j - 1]));
                        lemma_ranks_transitive(entry(item), eb[p as int], eb[j - 1]);
                    }
                }
                assert forall|i: int, j: int| 0 <= i < j < es.len() implies ranks_no_later(#[trigger] es[i], #[trigger] es[j]) by {
                    if j < p {
                    } else if j == p {
                    } else if i < p {
                        assert(es[i] == eb[i]);
                        assert(ranks_no_later(es[i], entry(item)));
                        assert(ranks_no_later(entry(item), es[j]));
                        lemma_ranks_transitive(es[i], entry(item), es[j]);
                    } else if i == p {
                        assert(ranks_no_later(entry(item), es[j]));
                    } else {
                        assert(es[i] == entries(out_before)[i - 1]);
                        assert(es[j] == entries(out_before)[j - 1]);
                    }
                }
                assert(entries(out@).to_multiset() =~= entries(out_before).to_multiset().insert(entry(item)));
            }
        }
    }
    proof {
        assert(entries(rest@) =~= Seq::<(Seq<char>, nat)>::empty());
        reveal_with_fuel(Seq::filter, 1);
        assert(over_limit(entries(rest@), limit as nat).to_multiset() =~= Multiset::empty());
        assert(entries(out@).to_multiset().add(Multiset::empty()) =~= entries(out@).to_multiset());
    }
    out
}

/// Whether two strings hold the same characters.
pub fn same_text(a: &str, b: &str) -> (same: bool)
    ensures
        same == (a@ == b@),
{
    let va = chars_of(a);
    let vb = chars_of(b);
    if va.len() != vb.len() {
        return false;
    }
    let mut i: usize = 0;
    while i < va.len()
        invariant
            va@ == a@,
            vb@ == b@,
            va@.len() == vb@.len(),
            i <= va@.len(),
            forall|k: int| 0 <= k < i ==> va@[k] == vb@[k],
        decreases va@.len() - i,
    {
        if va[i] != vb[i] {
            return false;
        }
        i = i + 1;
    }
    assert(va@ =~= vb@);
    true
}

/// The views of the grandfathered paths.
pub open spec fn path_views(paths: Seq<&str>) -> Seq<Seq<char>> {
    paths.map_values(|p: &str| p@)
}

/// Offenders not on the exception list, in report order.
pub open spec fn violations(over: Seq<(Seq<char>, nat)>, excepted: Seq<Seq<char>>) -> Seq<(Seq<char>, nat)> {
    over.filter(|e: (Seq<char>, nat)| !excepted.contains(e.0))
}

/// Whether some offender has this path.
pub open spec fn reported(over: Seq<(Seq<char>, nat)>, path: Seq<char>) -> bool {
    exists|i: int| 0 <= i < over.len() && (#[trigger] over[i]).0 == path
}

/// Exception-list entries that are no longer over the limit.
pub open spec fn stale(over: Seq<(Seq<char>, nat)>, excepted: Seq<Seq<char>>) -> Seq<Seq<char>> {
    excepted.filter(|p: Seq<char>| !reported(over, p))
}

/// One report line per offender: `  path: N lines`.
pub open spec fn offender_lines(v: Seq<(Seq<char>, nat)>) -> Seq<char>
    decreases v.len(),
{
    if v.len() == 0 {
        Seq::empty()
    } else {
        offender_lines(v.drop_last()) + "  "@ + v.last().0 + ": "@ + decimal(v.last().1) + " lines\n"@
    }
}

/// One report line per stale entry: `  path`.
pub open spec fn stale_lines(v: Seq<Seq<char>>) -> Seq<char>
    decreases v.len(),
{
    if v.len() == 0 {
        Seq::empty()
    } else {
        stale_lines(v.drop_last()) + "  "@ + v.last() + "\n"@
    }
}

/// The line-limit report: empty when every file is within the limit.
pub open spec fn gate_message(over: Seq<(Seq<char>, nat)>, excepted: Seq<Seq<char>>) -> Seq<char> {
    let bad = violations(over, excepted);
    let old = stale(over, excepted);
    (if bad.len() > 0 {
        decimal(bad.len()) + " file(s) exceed the "@ + decimal(HARD_LIMIT as nat)
            + "-total-line hard limit (CODE_STANDARDS \u{a7}2.2):\n"@ + offender_lines(bad)
            + "Split a cohesive responsibility into a sibling module \u{2014} never strip whitespace or compress formatting to pass.\n"@
    } else {
        Seq::empty()
    }) + (if old.len() > 0 {
        "Grandfathered entries no longer over the limit \u{2014} remove them from the exception list:\n"@
            + stale_lines(old)
    } else {
        Seq::empty()
    })
}

/// Law: the line limit is met exactly when every offender is on the
/// exception list and every entry on the list is still an offender; in
/// particular an entry that has dropped under the limit is reported until
/// it is removed.
pub proof fn lemma_passes_exactly_when_clean(over: Seq<(Seq<char>, nat)>, excepted: Seq<Seq<char>>)
    ensures
        gate_message(over, excepted).len() == 0 <==> violations(over, excepted).len() == 0 && stale(over, excepted).len() == 0,
{
    reveal_strlit("Grandfathered entries no longer over the limit \u{2014} remove them from the exception list:\n");
    let bad = violations(over, excepted);
    if bad.len() > 0 {
        crate::text::lemma_decimal_digits(bad.len());
    }
}

/// Every entry of `v` has its own report line `  path\n` in `stale_lines(v)`.
proof fn lemma_stale_lines_list_every_entry(v: Seq<Seq<char>>, j: int)
    requires
        0 <= j < v.len(),
    ensures
        exists|at: int|
            0 <= at && at + v[j].len() + 3 <= stale_lines(v).len()
            && #[trigger] stale_lines(v).subrange(at, at + v[j].len() + 3) == "  "@ + v[j] + "\n"@,
    decreases v.len(),
{
    reveal_strlit("  ");
    reveal_strlit("\n");
    let prev = v.drop_last();
    let head = stale_lines(prev);
    let line = "  "@ + v.last() + "\n"@;
    assert(stale_lines(v) == head + line);
    if j == v.len() - 1 {
        let at = head.len() as int;
        assert(stale_lines(v).subrange(at, at + v[j].len() + 3) =~= line);
    } else {
        lemma_stale_lines_list_every_entry(prev, j);
        assert(prev[j] == v[j]);
        let at = choose|at: int|
            0 <= at && at + prev[j].len() + 3 <= head.len()
            && #[trigger] head.subrange(at, at + prev[j].len() + 3) == "  "@ + prev[j] + "\n"@;
        assert(stale_lines(v).subrange(at, at + v[j].len() + 3) =~= head.subrange(at, at + v[j].len() + 3));
    }
}

/// Law: the exception list only shrinks. Whenever an entry of the list is
/// the path of no offender at all, whatever other files are over the limit,
/// the report is not empty (so the verdict is `Err`) and it lists that entry
/// on a line of its own, `  path`.
pub proof fn lemma_a_stale_entry_is_always_reported(over: Seq<(Seq<char>, nat)>, excepted: Seq<Seq<char>>, k: int)
    requires
        0 <= k < excepted.len(),
        forall|j: int| 0 <= j < over.len() ==> (#[trigger] over[j]).0 != excepted[k],
    ensures
        gate_message(over, excepted).len() > 0,
        exists|at: int|
            0 <= at && at + excepted[k].len() + 3 <= gate_message(over, excepted).len()
            && #[trigger] gate_message(over, excepted).subrange(at, at + excepted[k].len() + 3)
                == "  "@ + excepted[k] + "\n"@,
{
    let old = stale(over, excepted);
    let p = excepted[k];
    assert(!reported(over, p));
    excepted.lemma_filter_contains(|q: Seq<char>| !reported(over, q), k);
    assert(old.contains(p));
    let j = choose|j: int| 0 <= j < old.len() && old[j] == p;
    lemma_stale_lines_list_every_entry(old, j);
    let bad = violations(over, excepted);
    let first = if bad.len() > 0 {
        decimal(bad.len()) + " file(s) exceed the "@ + decimal(HARD_LIMIT as nat)
            + "-total-line hard limit (CODE_STANDARDS \u{a7}2.2):\n"@ + offender_lines(bad)
            + "Split a cohesive responsibility into a sibling module \u{2014} never strip whitespace or compress formatting to pass.\n"@
    } else {
        Seq::empty()
    };
    let heading = "Grandfathered entries no longer over the limit \u{2014} remove them from the exception list:\n"@;
    let lines = stale_lines(old);
    let msg = gate_message(over, excepted);
    assert(msg == first + (heading + lines));
    let at = choose|at: int|
        0 <= at && at + p.len() + 3 <= lines.len()
        && #[trigger] lines.subrange(at, at + p.len() + 3) == "  "@ + p + "\n"@;
    let shift = first.len() + heading.len();
    assert(msg.subrange(shift + at, shift + at + p.len() + 3) =~= lines.subrange(at, at + p.len() + 3));
}

fn is_excepted(path: &str, grandfathered: &[&str]) -> (found: bool)
    ensures
        found == path_views(grandfathered@).contains(path@),
{
    let mut k: usize = 0;
    while k < grandfathered.len()
        invariant
            k <= grandfathered@.len(),
            forall|j: int| 0 <= j < k ==> grandfathered@[j]@ != path@,
        decreases grandfathered@.len() - k,
    {
        if same_text(path, grandfathered[k]) {
            assert(path_views(grandfathered@)[k as int] == path@);
            return true;
        }
        k = k + 1;
    }
    assert forall|j: int| 0 <= j < path_views(grandfathered@).len() implies path_views(grandfathered@)[j] != path@ by {
        assert(path_views(grandfathered@)[j] == grandfathered@[j]@);
    }
    false
}

fn is_reported(over: &[Oversized], path: &str) -> (found: bool)
    ensures
        found == reported(entries(over@), path@),
{
    let mut k: usize = 0;
    while k < over.len()
        invariant
            k <= over@.len(),
            forall|j: int| 0 <= j < k ==> over@[j].path@ != path@,
        decreases over@.len() - k,
    {
        if same_text(over[k].path.as_str(), path) {
            assert(entries(over@)[k as int].0 == path@);
            return true;
        }
        k = k + 1;
    }
    assert forall|j: int| 0 <= j < entries(over@).len() implies (#[trigger] entries(over@)[j]).0 != path@ by {
        assert(entries(over@)[j].0 == over@[j].path@);
    }
    false
}

/// The line limit: `Err` with the report when any offender is not on the
/// exception list, or when an exception-list entry is no longer over the
/// limit (the list only shrinks); `Ok` otherwise.
pub fn assert_source_files_within_limit(over: &[Oversized], grandfathered: &[&str]) -> (verdict: Result<(), String>)
    ensures
        verdict is Ok <==> gate_message(entries(over@), path_views(grandfathered@)).len() == 0,
        verdict matches Err(message) ==> message@ == gate_message(entries(over@), path_views(grandfathered@)),
{
    let ghost ov = entries(over@);
    let ghost ex = path_views(grandfathered@);
    let mut bad_lines = String::new();
    let mut bad_count: usize = 0;
    let mut i: usize = 0;
    while i < over.len()
        invariant
            i <= over@.len(),
            ov == entries(over@),
            ex == path_views(grandfathered@),
            bad_lines@ == offender_lines(violations(ov.take(i as int), ex)),
            bad_count == violations(ov.take(i as int), ex).len(),
            bad_count <= i,
        decreases over@.len() - i,
    {
        proof {
            assert(ov.take(i + 1) =~= ov.take(i as int).push(ov[i as int]));
            reveal_with_fuel(Seq::filter, 1);
            assert(ov.take(i + 1).drop_last() =~= ov.take(i as int));
        }
        if !is_excepted(over[i].path.as_str(), grandfathered) {
            bad_lines.append("  ");
            bad_lines.append(over[i].path.as_str());
            bad_lines.append(": ");
            push_decimal(&mut bad_lines, over[i].lines as u64);
            bad_lines.append(" lines\n");
            bad_count = bad_count + 1;
            proof {
                let v = violations(ov.take(i + 1), ex);
                assert(v == violations(ov.take(i as int), ex).push(ov[i as int]));
                assert(v.drop_last() =~= violations(ov.take(i as int), ex));
            }
        }
        i = i + 1;
    }
    assert(ov.take(ov.len() as int) =~= ov);
    let mut stale_text = String::new();
    let mut stale_count: usize = 0;
    let mut k: usize = 0;
    while k < grandfathered.len()
        invariant
            k <= grandfathered@.len(),
            ov == entries(over@),
            ex == path_views(grandfathered@),
            stale_text@ == stale_lines(stale(ov, ex.take(k as int))),
            stale_count == stale(ov, ex.take(k as int)).len(),
            stale_count <= k,
        decreases grandfathered@.len() - k,
    {
        proof {
            assert(ex.take(k + 1) =~= ex.take(k as int).push(ex[k as int]));
            reveal_with_fuel(Seq::filter, 1);
            assert(ex.take(k + 1).drop_last() =~= ex.take(k as int));
        }
        if !is_reported(over, grandfathered[k]) {
            stale_text.append("  ");
            stale_text.append(grandfathered[k]);
            stale_text.append("\n");
            stale_count = stale_count + 1;
            proof {
                let v = stale(ov, ex.take(k + 1));
                assert(v.drop_last() =~= stale(ov, ex.take(k as int)));
            }
        }
        k = k + 1;
    }
    assert(ex.take(ex.len() as int) =~= ex);
    let mut message = String::new();
    if bad_count > 0 {
        push_decimal(&mut message, bad_count as u64);
        message.append(" file(s) exceed the ");
        push_decimal(&mut message, HARD_LIMIT as u64);
        message.append("-total-line hard limit (CODE_STANDARDS \u{a7}2.2):\n");
        message.append(bad_lines.as_str());
        message.append("Split a cohesive responsibility into a sibling module \u{2014} never strip whitespace or compress formatting to pass.\n");
    }
    if stale_count > 0 {
        message.append("Grandfathered entries no longer over the limit \u{2014} remove them from the exception list:\n");
        message.append(stale_text.as_str());
    }
    proof {
        crate::text::lemma_decimal_digits(bad_count as nat);
    }
    assert(message@ =~= gate_message(ov, ex));
    if bad_count == 0 && stale_count == 0 {
        assert(message@.len() == 0);
        assert(gate_message(ov, ex).len() == 0);
        Ok(())
    } else {
        proof {
            reveal_strlit("Grandfathered entries no longer over the limit \u{2014} remove them from the exception list:\n");
        }
        assert(message@.len() > 0);
        Err(message)
    }
}

} // verus!
