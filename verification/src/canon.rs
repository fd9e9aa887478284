//! The canonical form of a list of directories: each directory once, in
//! ascending order, so that lists that hold the same directories are the
//! same list.
//!
//! Directories are ordered as paths are: component by component, each
//! component by its characters, a path before those that go on behind it.
//! Two texts with the same components are ordered by their characters.

use vstd::prelude::*;
use crate::path::{chars_of, components, same_parts, split, texts};

verus! {

/// Whether text `a` comes before text `b`: at the first place where they
/// differ `a` has the smaller character, or `a` ends there and `b` goes on.
pub open spec fn text_before(a: Seq<char>, b: Seq<char>) -> bool
    decreases a.len(),
{
    if b.len() == 0 {
        false
    } else if a.len() == 0 {
        true
    } else if a[0] != b[0] {
        (a[0] as u32) < (b[0] as u32)
    } else {
        text_before(a.drop_first(), b.drop_first())
    }
}

/// Whether the components `a` come before the components `b`: at the
/// first place where they differ `a` has the component that comes first,
/// or `a` ends there and `b` goes on.
pub open spec fn parts_before(a: Seq<Seq<char>>, b: Seq<Seq<char>>) -> bool
    decreases a.len(),
{
    if b.len() == 0 {
        false
    } else if a.len() == 0 {
        true
    } else if a[0] != b[0] {
        text_before(a[0], b[0])
    } else {
        parts_before(a.drop_first(), b.drop_first())
    }
}

/// Whether the directory `a` comes before the directory `b`: by their
/// components where these differ, else by their characters.
pub open spec fn dir_before(a: Seq<char>, b: Seq<char>) -> bool {
    if components(a) != components(b) {
        parts_before(components(a), components(b))
    } else {
        text_before(a, b)
    }
}

/// `sorted` with `x` put behind the last item that does not come after it,
/// unless that item is `x` itself.
pub open spec fn insert_sorted(sorted: Seq<Seq<char>>, x: Seq<char>) -> Seq<Seq<char>>
    decreases sorted.len(),
{
    if sorted.len() == 0 {
        seq![x]
    } else if sorted.last() == x {
        sorted
    } else if dir_before(sorted.last(), x) {
        sorted.push(x)
    } else {
        insert_sorted(sorted.drop_last(), x).push(sorted.last())
    }
}

/// The canonical form of a list of directories: each once, in ascending
/// order.
pub open spec fn canonical(dirs: Seq<Seq<char>>) -> Seq<Seq<char>>
    decreases dirs.len(),
{
    if dirs.len() == 0 {
        Seq::empty()
    } else {
        insert_sorted(canonical(dirs.drop_last()), dirs.last())
    }
}

/// No text comes before itself.
pub proof fn lemma_text_before_irreflexive(a: Seq<char>)
    ensures
        !text_before(a, a),
    decreases a.len(),
{
    if a.len() > 0 {
        lemma_text_before_irreflexive(a.drop_first());
    }
}

/// Of two different texts one comes before the other.
pub proof fn lemma_text_before_total(a: Seq<char>, b: Seq<char>)
    requires
        a != b,
    ensures
        text_before(a, b) || text_before(b, a),
    decreases a.len(),
{
    if a.len() == 0 || b.len() == 0 {
        if a.len() == 0 && b.len() == 0 {
            assert(a =~= b);
        }
    } else if a[0] == b[0] {
        if a.drop_first() == b.drop_first() {
            assert(a =~= seq![a[0]] + a.drop_first());
            assert(b =~= seq![b[0]] + b.drop_first());
        }
        lemma_text_before_total(a.drop_first(), b.drop_first());
    } else {
        // Different characters have different numbers.
        vstd::utf8::char_u32_cast(a[0], a[0] as u32);
        vstd::utf8::char_u32_cast(b[0], b[0] as u32);
    }
}

/// Coming before is transitive.
pub proof fn lemma_text_before_transitive(a: Seq<char>, b: Seq<char>, c: Seq<char>)
    requires
        text_before(a, b),
        text_before(b, c),
    ensures
        text_before(a, c),
    decreases a.len(),
{
    if a.len() > 0 && a[0] == b[0] && b[0] == c[0] {
        lemma_text_before_transitive(a.drop_first(), b.drop_first(), c.drop_first());
    }
}

/// No list of components comes before itself.
pub proof fn lemma_parts_before_irreflexive(a: Seq<Seq<char>>)
    ensures
        !parts_before(a, a),
    decreases a.len(),
{
    if a.len() > 0 {
        lemma_parts_before_irreflexive(a.drop_first());
    }
}

/// Of two different lists of components one comes before the other.
pub proof fn lemma_parts_before_total(a: Seq<Seq<char>>, b: Seq<Seq<char>>)
    requires
        a != b,
    ensures
        parts_before(a, b) || parts_before(b, a),
    decreases a.len(),
{
    if a.len() == 0 || b.len() == 0 {
        if a.len() == 0 && b.len() == 0 {
            assert(a =~= b);
        }
    } else if a[0] == b[0] {
        if a.drop_first() == b.drop_first() {
            assert(a =~= seq![a[0]] + a.drop_first());
            assert(b =~= seq![b[0]] + b.drop_first());
        }
        lemma_parts_before_total(a.drop_first(), b.drop_first());
    } else {
        lemma_text_before_total(a[0], b[0]);
    }
}

/// Coming before is transitive for lists of components.
pub proof fn lemma_parts_before_transitive(
    a: Seq<Seq<char>>,
    b: Seq<Seq<char>>,
    c: Seq<Seq<char>>,
)
    requires
        parts_before(a, b),
        parts_before(b, c),
    ensures
        parts_before(a, c),
    decreases a.len(),
{
    if a.len() > 0 {
        if a[0] == b[0] && b[0] == c[0] {
            lemma_parts_before_transitive(a.drop_first(), b.drop_first(), c.drop_first());
        } else if a[0] != b[0] && b[0] != c[0] {
            lemma_text_before_transitive(a[0], b[0], c[0]);
            if a[0] == c[0] {
                lemma_text_before_transitive(a[0], b[0], a[0]);
                lemma_text_before_irreflexive(a[0]);
            }
        }
    }
}

/// No directory comes before itself.
pub proof fn lemma_dir_before_irreflexive(a: Seq<char>)
    ensures
        !dir_before(a, a),
{
    lemma_text_before_irreflexive(a);
}

/// Of two different directories one comes before the other.
pub proof fn lemma_dir_before_total(a: Seq<char>, b: Seq<char>)
    requires
        a != b,
    ensures
        dir_before(a, b) || dir_before(b, a),
{
    if components(a) != components(b) {
        lemma_parts_before_total(components(a), components(b));
    } else {
        lemma_text_before_total(a, b);
    }
}

/// Coming before is transitive for directories.
pub proof fn lemma_dir_before_transitive(a: Seq<char>, b: Seq<char>, c: Seq<char>)
    requires
        dir_before(a, b),
        dir_before(b, c),
    ensures
        dir_before(a, c),
{
    let ca = components(a);
    let cb = components(b);
    let cc = components(c);
    if ca == cb && cb == cc {
        lemma_text_before_transitive(a, b, c);
    } else if ca != cb && cb != cc {
        lemma_parts_before_transitive(ca, cb, cc);
        if ca == cc {
            lemma_parts_before_transitive(ca, cb, ca);
            lemma_parts_before_irreflexive(ca);
        }
    }
}

/// Whether each item of `s` comes before all later ones.
pub open spec fn ascending(s: Seq<Seq<char>>) -> bool {
    forall|i: int, j: int| 0 <= i < j < s.len() ==> dir_before(#[trigger] s[i], #[trigger] s[j])
}

/// Whether `a` and `b` hold the same texts, in whatever order and however
/// often.
pub open spec fn same_texts(a: Seq<Seq<char>>, b: Seq<Seq<char>>) -> bool {
    &&& forall|i: int| 0 <= i < a.len() ==> b.contains(#[trigger] a[i])
    &&& forall|i: int| 0 <= i < b.len() ==> a.contains(#[trigger] b[i])
}

proof fn lemma_drop_last_ascending(s: Seq<Seq<char>>)
    requires
        ascending(s),
        s.len() > 0,
    ensures
        ascending(s.drop_last()),
        forall|i: int| 0 <= i < s.len() - 1 ==> dir_before(#[trigger] s.drop_last()[i], s.last()),
{
    let below = s.drop_last();
    assert forall|i: int, j: int| 0 <= i < j < below.len() implies dir_before(
        #[trigger] below[i],
        #[trigger] below[j],
    ) by {
        assert(dir_before(s[i], s[j]));
    }
    assert forall|i: int| 0 <= i < s.len() - 1 implies dir_before(
        #[trigger] s.drop_last()[i],
        s.last(),
    ) by {
        assert(dir_before(s[i], s[s.len() - 1]));
    }
}

/// Inserting into an ascending list gives an ascending list that holds what
/// the list held and the item inserted.
pub proof fn lemma_insert_sorted(sorted: Seq<Seq<char>>, x: Seq<char>)
    requires
        ascending(sorted),
    ensures
        ascending(insert_sorted(sorted, x)),
        same_texts(insert_sorted(sorted, x), sorted.push(x)),
    decreases sorted.len(),
{
    let out = insert_sorted(sorted, x);
    let all = sorted.push(x);
    if sorted.len() == 0 {
        assert(out =~= all);
        assert(all[0] == x);
        assert(out[0] == x);
    } else if sorted.last() == x {
        assert forall|i: int| 0 <= i < out.len() implies all.contains(#[trigger] out[i]) by {
            assert(all[i] == out[i]);
        }
        assert forall|i: int| 0 <= i < all.len() implies out.contains(#[trigger] all[i]) by {
            if i < sorted.len() {
                assert(out[i] == all[i]);
            } else {
                assert(out[out.len() - 1] == all[i]);
            }
        }
    } else if dir_before(sorted.last(), x) {
        lemma_drop_last_ascending(sorted);
        assert forall|i: int, j: int| 0 <= i < j < out.len() implies dir_before(
            #[trigger] out[i],
            #[trigger] out[j],
        ) by {
            if j == sorted.len() {
                if i < sorted.len() - 1 {
                    assert(dir_before(sorted.drop_last()[i], sorted.last()));
                    lemma_dir_before_transitive(sorted[i], sorted.last(), x);
                }
            } else {
                assert(dir_before(sorted[i], sorted[j]));
            }
        }
        assert forall|i: int| 0 <= i < out.len() implies all.contains(#[trigger] out[i]) by {
            assert(all[i] == out[i]);
        }
        assert forall|i: int| 0 <= i < all.len() implies out.contains(#[trigger] all[i]) by {
            assert(out[i] == all[i]);
        }
    } else {
        let below = sorted.drop_last();
        let last = sorted.last();
        lemma_drop_last_ascending(sorted);
        lemma_insert_sorted(below, x);
        lemma_dir_before_total(last, x);
        let inner = insert_sorted(below, x);
        let inner_all = below.push(x);
        assert(out == inner.push(last));
        assert forall|i: int, j: int| 0 <= i < j < out.len() implies dir_before(
            #[trigger] out[i],
            #[trigger] out[j],
        ) by {
            if j == inner.len() {
                assert(inner_all.contains(inner[i]));
                let k = choose|k: int| 0 <= k < inner_all.len() && inner_all[k] == inner[i];
                if k < below.len() {
                    assert(dir_before(below[k], last));
                }
            } else {
                assert(dir_before(inner[i], inner[j]));
            }
        }
        assert forall|i: int| 0 <= i < out.len() implies all.contains(#[trigger] out[i]) by {
            if i < inner.len() {
                assert(inner_all.contains(inner[i]));
                let k = choose|k: int| 0 <= k < inner_all.len() && inner_all[k] == inner[i];
                if k < below.len() {
                    assert(all[k] == out[i]);
                } else {
                    assert(all[all.len() - 1] == out[i]);
                }
            } else {
                assert(all[sorted.len() - 1] == out[i]);
            }
        }
        assert forall|i: int| 0 <= i < all.len() implies out.contains(#[trigger] all[i]) by {
            if i < below.len() {
                assert(inner_all[i] == all[i]);
                assert(inner.contains(inner_all[i]));
                let m = choose|m: int| 0 <= m < inner.len() && inner[m] == all[i];
                assert(out[m] == all[i]);
            } else if i == below.len() {
                assert(out[out.len() - 1] == all[i]);
            } else {
                assert(inner_all[below.len() as int] == x);
                assert(inner.contains(inner_all[below.len() as int]));
                let m = choose|m: int| 0 <= m < inner.len() && inner[m] == x;
                assert(out[m] == all[i]);
            }
        }
    }
}

/// The canonical form of a list of directories is ascending, so it holds
/// none twice, and it holds exactly the directories of the list.
pub proof fn lemma_canonical(dirs: Seq<Seq<char>>)
    ensures
        ascending(canonical(dirs)),
        canonical(dirs).no_duplicates(),
        same_texts(canonical(dirs), dirs),
    decreases dirs.len(),
{
    let out = canonical(dirs);
    if dirs.len() > 0 {
        let rest = dirs.drop_last();
        let inner = canonical(rest);
        lemma_canonical(rest);
        lemma_insert_sorted(inner, dirs.last());
        let mid = inner.push(dirs.last());
        assert forall|i: int| 0 <= i < out.len() implies dirs.contains(#[trigger] out[i]) by {
            assert(mid.contains(out[i]));
            let k = choose|k: int| 0 <= k < mid.len() && mid[k] == out[i];
            if k < inner.len() {
                assert(rest.contains(inner[k]));
                let m = choose|m: int| 0 <= m < rest.len() && rest[m] == inner[k];
                assert(dirs[m] == out[i]);
            } else {
                assert(dirs[dirs.len() - 1] == out[i]);
            }
        }
        assert forall|i: int| 0 <= i < dirs.len() implies out.contains(#[trigger] dirs[i]) by {
            if i < rest.len() {
                assert(rest[i] == dirs[i]);
                assert(inner.contains(rest[i]));
                let m = choose|m: int| 0 <= m < inner.len() && inner[m] == dirs[i];
                assert(mid[m] == dirs[i]);
                assert(out.contains(mid[m]));
            } else {
                assert(mid[inner.len() as int] == dirs[i]);
                assert(out.contains(mid[inner.len() as int]));
            }
        }
    }
    assert forall|i: int, j: int| 0 <= i < out.len() && 0 <= j < out.len() && i != j implies out[i]
        != out[j] by {
        if i < j {
            assert(dir_before(out[i], out[j]));
        } else {
            assert(dir_before(out[j], out[i]));
        }
        lemma_dir_before_irreflexive(out[i]);
    }
}

/// Two ascending lists that hold the same texts are the same list.
pub proof fn lemma_ascending_unique(a: Seq<Seq<char>>, b: Seq<Seq<char>>)
    requires
        ascending(a),
        ascending(b),
        same_texts(a, b),
    ensures
        a == b,
    decreases a.len(),
{
    if a.len() == 0 {
        if b.len() > 0 {
            assert(a.contains(b[0]));
        }
        assert(a =~= b);
    } else if b.len() == 0 {
        assert(b.contains(a[0]));
    } else {
        // The last items are the greatest of each list, hence equal.
        let la = a.last();
        let lb = b.last();
        let ra = a.drop_last();
        let rb = b.drop_last();
        lemma_drop_last_ascending(a);
        lemma_drop_last_ascending(b);
        lemma_dir_before_irreflexive(la);
        lemma_dir_before_irreflexive(lb);
        assert(b.contains(a[a.len() - 1]));
        assert(a.contains(b[b.len() - 1]));
        if la != lb {
            let i = choose|i: int| 0 <= i < b.len() && b[i] == la;
            let j = choose|j: int| 0 <= j < a.len() && a[j] == lb;
            assert(dir_before(rb[i], lb));
            assert(dir_before(ra[j], la));
            lemma_dir_before_transitive(la, lb, la);
        }
        assert forall|i: int| 0 <= i < ra.len() implies rb.contains(#[trigger] ra[i]) by {
            assert(dir_before(ra[i], la));
            assert(b.contains(a[i]));
            let m = choose|m: int| 0 <= m < b.len() && b[m] == a[i];
            assert(rb[m] == ra[i]);
        }
        assert forall|i: int| 0 <= i < rb.len() implies ra.contains(#[trigger] rb[i]) by {
            assert(dir_before(rb[i], lb));
            assert(a.contains(b[i]));
            let m = choose|m: int| 0 <= m < a.len() && a[m] == b[i];
            assert(ra[m] == rb[i]);
        }
        lemma_ascending_unique(ra, rb);
        assert(a =~= ra.push(la));
        assert(b =~= rb.push(lb));
    }
}

/// Lists of directories that hold the same directories, in whatever order
/// and however often, have the same canonical form.
pub proof fn lemma_canonical_unique(a: Seq<Seq<char>>, b: Seq<Seq<char>>)
    requires
        same_texts(a, b),
    ensures
        canonical(a) == canonical(b),
{
    lemma_canonical(a);
    lemma_canonical(b);
    let ca = canonical(a);
    let cb = canonical(b);
    assert forall|i: int| 0 <= i < ca.len() implies cb.contains(#[trigger] ca[i]) by {
        assert(a.contains(ca[i]));
        let k = choose|k: int| 0 <= k < a.len() && a[k] == ca[i];
        assert(b.contains(a[k]));
        let m = choose|m: int| 0 <= m < b.len() && b[m] == ca[i];
        assert(cb.contains(b[m]));
    }
    assert forall|i: int| 0 <= i < cb.len() implies ca.contains(#[trigger] cb[i]) by {
        assert(b.contains(cb[i]));
        let k = choose|k: int| 0 <= k < b.len() && b[k] == cb[i];
        assert(a.contains(b[k]));
        let m = choose|m: int| 0 <= m < a.len() && a[m] == cb[i];
        assert(ca.contains(a[m]));
    }
    lemma_ascending_unique(ca, cb);
}

/// Whether `a` comes before `b`.
pub fn comes_before(a: &str, b: &str) -> (before: bool)
    ensures
        before == text_before(a@, b@),
{
    let x = chars_of(a);
    let y = chars_of(b);
    let mut i: usize = 0;
    assert(a@.skip(0) == a@ && b@.skip(0) == b@);
    while i < x.len() && i < y.len()
        invariant
            x@ == a@,
            y@ == b@,
            i <= x.len(),
            i <= y.len(),
            text_before(a@, b@) == text_before(a@.skip(i as int), b@.skip(i as int)),
        decreases x.len() - i,
    {
        let ghost ra = a@.skip(i as int);
        let ghost rb = b@.skip(i as int);
        assert(ra[0] == x[i as int] && rb[0] == y[i as int]);
        let cx: char = x[i];
        let cy: char = y[i];
        if cx != cy {
            return (cx as u32) < (cy as u32);
        }
        assert(ra.drop_first() == a@.skip(i + 1));
        assert(rb.drop_first() == b@.skip(i + 1));
        i += 1;
    }
    assert(a@.skip(i as int).len() == x.len() - i);
    assert(b@.skip(i as int).len() == y.len() - i);
    i < y.len()
}

/// Whether the components `a` come before the components `b`.
pub fn parts_come_before(a: &Vec<String>, b: &Vec<String>) -> (before: bool)
    ensures
        before == parts_before(texts(a@), texts(b@)),
{
    let ghost x = texts(a@);
    let ghost y = texts(b@);
    let mut i: usize = 0;
    assert(x.skip(0) == x && y.skip(0) == y);
    while i < a.len() && i < b.len()
        invariant
            x == texts(a@),
            y == texts(b@),
            i <= a.len(),
            i <= b.len(),
            parts_before(x, y) == parts_before(x.skip(i as int), y.skip(i as int)),
        decreases a.len() - i,
    {
        let ghost rx = x.skip(i as int);
        let ghost ry = y.skip(i as int);
        assert(rx[0] == a[i as int]@ && ry[0] == b[i as int]@);
        if a[i] != b[i] {
            return comes_before(a[i].as_str(), b[i].as_str());
        }
        assert(rx.drop_first() == x.skip(i + 1));
        assert(ry.drop_first() == y.skip(i + 1));
        i += 1;
    }
    assert(x.skip(i as int).len() == a.len() - i);
    assert(y.skip(i as int).len() == b.len() - i);
    i < b.len()
}

/// Whether the directory `a` comes before the directory `b`.
pub fn dir_comes_before(a: &str, b: &str) -> (before: bool)
    ensures
        before == dir_before(a@, b@),
{
    let x = split(a);
    let y = split(b);
    if !same_parts(&x, &y) {
        parts_come_before(&x, &y)
    } else {
        comes_before(a, b)
    }
}

/// Where `x` belongs in `sorted`: behind the items before place `at`, none
/// of the items from `at` on being `x` or before it.
pub proof fn lemma_insert_at(sorted: Seq<Seq<char>>, x: Seq<char>, at: int)
    requires
        0 <= at <= sorted.len(),
        forall|j: int|
            at <= j < sorted.len() ==> (#[trigger] sorted[j]) != x && !dir_before(sorted[j], x),
        at > 0 ==> sorted[at - 1] == x || dir_before(sorted[at - 1], x),
    ensures
        insert_sorted(sorted, x) == if at > 0 && sorted[at - 1] == x {
            sorted
        } else {
            sorted.insert(at, x)
        },
    decreases sorted.len() - at,
{
    if sorted.len() == 0 {
        assert(sorted.insert(0, x) == seq![x]);
    } else if at == sorted.len() {
        if sorted.last() != x {
            assert(sorted.insert(at, x) == sorted.push(x));
        }
    } else {
        let below = sorted.drop_last();
        assert forall|j: int| at <= j < below.len() implies (#[trigger] below[j]) != x
            && !dir_before(below[j], x) by {
            assert(below[j] == sorted[j]);
        }
        if at > 0 {
            assert(below[at - 1] == sorted[at - 1]);
        }
        lemma_insert_at(below, x, at);
        if at > 0 && sorted[at - 1] == x {
            assert(below.push(sorted.last()) == sorted);
        } else {
            assert(below.insert(at, x).push(sorted.last()) == sorted.insert(at, x));
        }
    }
}

/// Puts `x` into the sorted list `out` unless the list holds it.
pub fn insert_text(out: &mut Vec<String>, x: String)
    ensures
        texts(final(out)@) == insert_sorted(texts(old(out)@), x@),
{
    let mut at: usize = out.len();
    while at > 0 && !(out[at - 1] == x) && !dir_comes_before(out[at - 1].as_str(), x.as_str())
        invariant
            out@ == old(out)@,
            at <= out.len(),
            forall|j: int|
                at <= j < out.len() ==> (#[trigger] texts(out@)[j]) != x@ && !dir_before(
                    texts(out@)[j],
                    x@,
                ),
        decreases at,
    {
        at -= 1;
    }
    proof {
        if at > 0 {
            assert(texts(out@)[at - 1] == out@[at - 1]@);
        }
        lemma_insert_at(texts(out@), x@, at as int);
    }
    if at > 0 && out[at - 1] == x {
    } else {
        let ghost before = out@;
        out.insert(at, x);
        assert(texts(out@) == texts(before).insert(at as int, x@));
    }
}

/// The canonical form of `dirs`.
pub fn canonicalize(dirs: Vec<String>) -> (out: Vec<String>)
    ensures
        texts(out@) == canonical(texts(dirs@)),
{
    let mut out: Vec<String> = Vec::new();
    let n = dirs.len();
    let mut i: usize = 0;
    let ghost all = texts(dirs@);
    assert(all.take(0) == Seq::<Seq<char>>::empty());
    assert(texts(out@) == Seq::<Seq<char>>::empty());
    while i < n
        invariant
            n == dirs.len(),
            i <= n,
            all == texts(dirs@),
            texts(out@) == canonical(all.take(i as int)),
        decreases n - i,
    {
        proof {
            assert(all.take(i + 1).drop_last() == all.take(i as int));
            assert(all.take(i + 1).last() == dirs@[i as int]@);
        }
        insert_text(&mut out, dirs[i].clone());
        i += 1;
    }
    assert(all.take(n as int) == all);
    out
}

/// A copy of `list`.
pub fn copy_texts(list: &Vec<String>) -> (out: Vec<String>)
    ensures
        texts(out@) == texts(list@),
{
    let mut out: Vec<String> = Vec::new();
    let n = list.len();
    let mut i: usize = 0;
    while i < n
        invariant
            n == list.len(),
            i <= n,
            out.len() == i,
            forall|j: int| 0 <= j < i ==> (#[trigger] out[j])@ == list[j]@,
        decreases n - i,
    {
        out.push(list[i].clone());
        i += 1;
    }
    assert(texts(out@) =~= texts(list@));
    out
}

} // verus!
