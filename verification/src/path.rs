//! Slash-separated paths as sequences of components.
//!
//! A path is text; its components are the maximal non-empty runs of
//! characters between `/` separators. Repeated, leading and trailing
//! separators therefore contribute nothing.

use vstd::prelude::*;
use vstd::string::StringExecFns;

verus! {

/// The separator between path components.
pub open spec fn is_sep(c: char) -> bool {
    c == '/'
}

/// Length of the longest prefix of `s` that holds no separator.
pub open spec fn head_len(s: Seq<char>) -> nat
    decreases s.len(),
{
    if s.len() == 0 || is_sep(s[0]) {
        0
    } else {
        1 + head_len(s.drop_first())
    }
}

/// The components of the path text `s`, left to right.
pub open spec fn components(s: Seq<char>) -> Seq<Seq<char>>
    decreases s.len(),
    via components_decreases
{
    if s.len() == 0 {
        Seq::empty()
    } else {
        let n = head_len(s) as int;
        if n == 0 {
            components(s.subrange(1, s.len() as int))
        } else {
            seq![s.subrange(0, n)] + components(s.subrange(n, s.len() as int))
        }
    }
}

#[via_fn]
proof fn components_decreases(s: Seq<char>) {
    lemma_head_len_bound(s);
}

/// The text of a component sequence: its items joined by single separators.
pub open spec fn join(parts: Seq<Seq<char>>) -> Seq<char>
    decreases parts.len(),
{
    if parts.len() == 0 {
        Seq::empty()
    } else if parts.len() == 1 {
        parts[0]
    } else {
        join(parts.drop_last()) + seq!['/'] + parts.last()
    }
}

/// `tail` is what `whole` ends with.
pub open spec fn ends_with<T>(whole: Seq<T>, tail: Seq<T>) -> bool {
    tail.len() <= whole.len() && whole.subrange(whole.len() - tail.len(), whole.len() as int)
        == tail
}

/// `head` is what `whole` starts with.
pub open spec fn starts_with<T>(whole: Seq<T>, head: Seq<T>) -> bool {
    head.len() <= whole.len() && whole.subrange(0, head.len() as int) == head
}

/// The views of a vector of strings, item by item.
pub open spec fn texts(v: Seq<String>) -> Seq<Seq<char>> {
    Seq::new(v.len(), |i: int| v[i]@)
}

pub proof fn lemma_head_len_bound(s: Seq<char>)
    ensures
        head_len(s) <= s.len(),
        head_len(s) < s.len() ==> is_sep(s[head_len(s) as int]),
        forall|i: int| 0 <= i < head_len(s) ==> !is_sep(#[trigger] s[i]),
    decreases s.len(),
{
    if s.len() == 0 || is_sep(s[0]) {
    } else {
        let t = s.drop_first();
        lemma_head_len_bound(t);
        assert forall|i: int| 0 <= i < head_len(s) implies !is_sep(#[trigger] s[i]) by {
            if i > 0 {
                assert(s[i] == t[i - 1]);
            }
        }
    }
}

/// A run of `n` characters without a separator that ends at a separator or at
/// the end of the text is exactly the head of the text.
pub proof fn lemma_head_len_is(s: Seq<char>, n: int)
    requires
        0 <= n <= s.len(),
        forall|i: int| 0 <= i < n ==> !is_sep(#[trigger] s[i]),
        n < s.len() ==> is_sep(s[n]),
    ensures
        head_len(s) == n,
    decreases n,
{
    if n == 0 {
    } else {
        let t = s.drop_first();
        assert forall|i: int| 0 <= i < n - 1 implies !is_sep(#[trigger] t[i]) by {
            assert(t[i] == s[i + 1]);
        }
        lemma_head_len_is(t, n - 1);
    }
}

/// A leading run of `n > 0` separator-free characters is the first component.
pub proof fn lemma_components_piece(s: Seq<char>, n: int)
    requires
        0 < n <= s.len(),
        forall|i: int| 0 <= i < n ==> !is_sep(#[trigger] s[i]),
        n < s.len() ==> is_sep(s[n]),
    ensures
        components(s) == seq![s.subrange(0, n)] + components(s.subrange(n, s.len() as int)),
{
    lemma_head_len_is(s, n);
}

/// A leading separator contributes no component.
pub proof fn lemma_components_sep(s: Seq<char>)
    requires
        s.len() > 0,
        is_sep(s[0]),
    ensures
        components(s) == components(s.subrange(1, s.len() as int)),
{
}

/// The head of a text that goes on behind a separator is its own head.
pub proof fn lemma_head_len_before_sep(a: Seq<char>, b: Seq<char>)
    ensures
        head_len(a + seq!['/'] + b) == head_len(a),
    decreases a.len(),
{
    let whole = a + seq!['/'] + b;
    if a.len() == 0 {
        assert(is_sep(whole[0]));
    } else {
        assert(whole[0] == a[0]);
        if !is_sep(a[0]) {
            assert(whole.drop_first() == a.drop_first() + seq!['/'] + b);
            lemma_head_len_before_sep(a.drop_first(), b);
        }
    }
}

/// The components of two texts joined by a separator are those of the
/// first followed by those of the second.
pub proof fn lemma_components_concat(a: Seq<char>, b: Seq<char>)
    ensures
        components(a + seq!['/'] + b) == components(a) + components(b),
    decreases a.len(),
{
    let whole = a + seq!['/'] + b;
    if a.len() == 0 {
        assert(is_sep(whole[0]));
        assert(whole.subrange(1, whole.len() as int) == b);
        assert(components(a) + components(b) == components(b));
    } else {
        lemma_head_len_before_sep(a, b);
        lemma_head_len_bound(a);
        let n = head_len(a) as int;
        if n == 0 {
            let rest = a.subrange(1, a.len() as int);
            assert(whole.subrange(1, whole.len() as int) == rest + seq!['/'] + b);
            lemma_components_concat(rest, b);
        } else {
            let rest = a.subrange(n, a.len() as int);
            assert(whole.subrange(0, n) == a.subrange(0, n));
            assert(whole.subrange(n, whole.len() as int) == rest + seq!['/'] + b);
            lemma_components_concat(rest, b);
            assert(seq![a.subrange(0, n)] + (components(rest) + components(b)) == (seq![
                a.subrange(0, n),
            ] + components(rest)) + components(b));
        }
    }
}

/// Whether `part` can be a component: it is not empty and holds no
/// separator.
pub open spec fn is_component(part: Seq<char>) -> bool {
    part.len() > 0 && forall|i: int| 0 <= i < part.len() ==> !is_sep(#[trigger] part[i])
}

/// The components of a text are components.
pub proof fn lemma_components_are_components(s: Seq<char>)
    ensures
        forall|k: int| 0 <= k < components(s).len() ==> is_component(#[trigger] components(s)[k]),
    decreases s.len(),
{
    if s.len() > 0 {
        lemma_head_len_bound(s);
        let n = head_len(s) as int;
        if n == 0 {
            lemma_components_are_components(s.subrange(1, s.len() as int));
            assert(components(s) == components(s.subrange(1, s.len() as int)));
        } else {
            let rest = s.subrange(n, s.len() as int);
            lemma_components_are_components(rest);
            let first = s.subrange(0, n);
            assert(components(s) == seq![first] + components(rest));
            assert(is_component(first)) by {
                assert forall|i: int| 0 <= i < first.len() implies !is_sep(#[trigger] first[i]) by {
                    assert(first[i] == s[i]);
                }
            }
            assert forall|k: int| 0 <= k < components(s).len() implies is_component(
                #[trigger] components(s)[k],
            ) by {
                if k > 0 {
                    assert(components(s)[k] == components(rest)[k - 1]);
                } else {
                    assert(components(s)[0] == first);
                }
            }
        }
    }
}

/// Joining components and splitting the text again gives the components
/// back.
pub proof fn lemma_components_of_join(parts: Seq<Seq<char>>)
    requires
        forall|k: int| 0 <= k < parts.len() ==> is_component(#[trigger] parts[k]),
    ensures
        components(join(parts)) == parts,
    decreases parts.len(),
{
    if parts.len() == 0 {
    } else {
        let last = parts.last();
        assert(is_component(parts[parts.len() - 1]));
        lemma_components_piece(last, last.len() as int);
        assert(last.subrange(0, last.len() as int) == last);
        assert(last.subrange(last.len() as int, last.len() as int) == Seq::<char>::empty());
        assert(components(last) == seq![last]);
        if parts.len() == 1 {
            assert(parts == seq![last]);
        } else {
            let before = parts.drop_last();
            assert forall|k: int| 0 <= k < before.len() implies is_component(
                #[trigger] before[k],
            ) by {
                assert(before[k] == parts[k]);
            }
            lemma_components_of_join(before);
            lemma_components_concat(join(before), last);
            assert(before + seq![last] == parts);
        }
    }
}

/// The characters of `s`, in order.
pub fn chars_of(s: &str) -> (out: Vec<char>)
    ensures
        out@ == s@,
{
    let n = s.unicode_len();
    let mut out: Vec<char> = Vec::new();
    let mut i: usize = 0;
    while i < n
        invariant
            n == s@.len(),
            i <= n,
            out@ == s@.subrange(0, i as int),
        decreases n - i,
    {
        out.push(s.get_char(i));
        i += 1;
    }
    out
}

/// Splits the path text into its components.
pub fn split(path: &str) -> (out: Vec<String>)
    ensures
        texts(out@) == components(path@),
{
    let chars = chars_of(path);
    let n = chars.len();
    let mut out: Vec<String> = Vec::new();
    let mut start: usize = 0;
    let mut i: usize = 0;
    assert(path@.subrange(0, n as int) == path@);
    assert(texts(out@) + components(path@) == components(path@));
    while i < n
        invariant
            chars@ == path@,
            n == chars.len(),
            start <= i <= n,
            forall|k: int| start <= k < i ==> !is_sep(#[trigger] path@[k]),
            components(path@) == texts(out@) + components(path@.subrange(start as int, n as int)),
        decreases n - i,
    {
        if chars[i] == '/' {
            let ghost rest = path@.subrange(start as int, n as int);
            let ghost after = path@.subrange(i as int, n as int);
            let ghost next = path@.subrange(i + 1, n as int);
            proof {
                lemma_components_sep(after);
                assert(after.subrange(1, after.len() as int) == next);
            }
            if start < i {
                let piece = path.substring_char(start, i).to_owned();
                proof {
                    assert forall|k: int| 0 <= k < i - start implies !is_sep(#[trigger] rest[k]) by {
                        assert(rest[k] == path@[start + k]);
                    }
                    lemma_components_piece(rest, i - start);
                    assert(rest.subrange(0, i - start) == piece@);
                    assert(rest.subrange(i - start, rest.len() as int) == after);
                    assert(texts(out@.push(piece)) == texts(out@) + seq![piece@]);
                    assert(texts(out@) + (seq![piece@] + components(next)) == (texts(out@)
                        + seq![piece@]) + components(next));
                }
                out.push(piece);
            } else {
                assert(rest == after);
            }
            start = i + 1;
        }
        i += 1;
    }
    let ghost rest = path@.subrange(start as int, n as int);
    if start < n {
        let piece = path.substring_char(start, n).to_owned();
        proof {
            assert forall|k: int| 0 <= k < n - start implies !is_sep(#[trigger] rest[k]) by {
                assert(rest[k] == path@[start + k]);
            }
            lemma_components_piece(rest, n - start);
            assert(rest.subrange(0, n - start) == piece@);
            assert(rest.subrange(n - start, rest.len() as int) == Seq::<char>::empty());
            assert(components(Seq::<char>::empty()) == Seq::<Seq<char>>::empty());
            assert(texts(out@.push(piece)) == texts(out@) + seq![piece@]);
            assert(seq![piece@] + Seq::<Seq<char>>::empty() == seq![piece@]);
        }
        out.push(piece);
    } else {
        assert(rest.len() == 0);
        assert(texts(out@) + Seq::<Seq<char>>::empty() == texts(out@));
    }
    out
}

/// Joins the components `parts[from..to]` with single separators.
pub fn join_range(parts: &Vec<String>, from: usize, to: usize) -> (out: String)
    requires
        from <= to <= parts.len(),
    ensures
        out@ == join(texts(parts@).subrange(from as int, to as int)),
{
    let mut out = String::new();
    let mut k: usize = from;
    proof {
        reveal_strlit("/");
        assert(texts(parts@).subrange(from as int, from as int).len() == 0);
    }
    while k < to
        invariant
            from <= k <= to <= parts.len(),
            "/"@ == seq!['/'],
            out@ == join(texts(parts@).subrange(from as int, k as int)),
        decreases to - k,
    {
        let ghost before = texts(parts@).subrange(from as int, k as int);
        let ghost after = texts(parts@).subrange(from as int, k + 1);
        proof {
            assert(after.drop_last() == before);
            assert(after.last() == parts@[k as int]@);
        }
        if k > from {
            out.append("/");
        } else {
            assert(out@ + parts@[k as int]@ == parts@[k as int]@);
        }
        out.append(parts[k].as_str());
        k += 1;
    }
    out
}

/// The text of the directory that `parts` names below `root`.
pub open spec fn under(root: Seq<char>, parts: Seq<Seq<char>>) -> Seq<char> {
    if parts.len() == 0 {
        root
    } else if root.len() == 0 || is_sep(root.last()) {
        root + join(parts)
    } else {
        root + seq!['/'] + join(parts)
    }
}

/// Whether the component lists `a` and `b` hold the same texts.
pub fn same_parts(a: &Vec<String>, b: &Vec<String>) -> (same: bool)
    ensures
        same == (texts(a@) == texts(b@)),
{
    if a.len() != b.len() {
        assert(texts(a@).len() != texts(b@).len());
        return false;
    }
    let n = a.len();
    let mut k: usize = 0;
    while k < n
        invariant
            n == a.len() == b.len(),
            k <= n,
            forall|j: int| 0 <= j < k ==> a@[j]@ == b@[j]@,
        decreases n - k,
    {
        if a[k] != b[k] {
            assert(texts(a@)[k as int] != texts(b@)[k as int]);
            return false;
        }
        k += 1;
    }
    assert(texts(a@) =~= texts(b@));
    true
}

/// Whether the component list `whole` starts with the component list `head`.
pub fn parts_start_with(whole: &Vec<String>, head: &Vec<String>) -> (starts: bool)
    ensures
        starts == starts_with(texts(whole@), texts(head@)),
{
    let wl = whole.len();
    let hl = head.len();
    if hl > wl {
        return false;
    }
    let ghost cut = texts(whole@).subrange(0, hl as int);
    let mut k: usize = 0;
    while k < hl
        invariant
            wl == whole.len(),
            hl == head.len(),
            hl <= wl,
            k <= hl,
            cut == texts(whole@).subrange(0, hl as int),
            forall|j: int| 0 <= j < k ==> whole@[j]@ == head@[j]@,
        decreases hl - k,
    {
        if whole[k] != head[k] {
            assert(cut[k as int] != texts(head@)[k as int]);
            return false;
        }
        k += 1;
    }
    assert(cut =~= texts(head@));
    true
}

/// The directory text for the components `parts[..count]` below `root`.
pub fn dir_under(root: &str, parts: &Vec<String>, count: usize) -> (out: String)
    requires
        count <= parts.len(),
    ensures
        out@ == under(root@, texts(parts@).subrange(0, count as int)),
{
    let mut out = root.to_owned();
    if count == 0 {
        return out;
    }
    let n = root.unicode_len();
    proof {
        reveal_strlit("/");
    }
    if n > 0 && root.get_char(n - 1) != '/' {
        out.append("/");
    }
    let joined = join_range(parts, 0, count);
    out.append(joined.as_str());
    out
}

} // verus!
