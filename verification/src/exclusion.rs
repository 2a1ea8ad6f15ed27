//! Which paths are in scope: a path is left out as soon as one of its
//! components is, letter for letter, one of the excluded names.

use rayon::iter::IntoParallelRefIterator;
use rayon::iter::ParallelIterator;
use vstd::prelude::*;
use vstd::std_specs::iter::IteratorSpec;

verus! {

broadcast use vstd::string::group_string_axioms;

/// The character that parts one path component from the next.
pub open spec fn is_separator(c: char) -> bool {
    c == '/'
}

/// What a list of strings holds, as plain sequences of characters.
pub open spec fn texts(v: Seq<String>) -> Seq<Seq<char>> {
    Seq::new(v.len(), |i: int| v[i]@)
}

/// The components of a path, in order: the pieces between separators, the
/// empty ones left out.
///
/// A separator at the end adds nothing; a character that follows a separator
/// (or stands first) opens a component; any other character lengthens the
/// last one.
pub open spec fn components(p: Seq<char>) -> Seq<Seq<char>>
    decreases p.len(),
{
    if p.len() == 0 {
        Seq::empty()
    } else if is_separator(p.last()) {
        components(p.drop_last())
    } else {
        let head = p.drop_last();
        let before = components(head);
        if head.len() == 0 || is_separator(head.last()) || before.len() == 0 {
            before.push(seq![p.last()])
        } else {
            before.drop_last().push(before.last().push(p.last()))
        }
    }
}

/// A path is excluded when any of its components equals any of the names.
pub open spec fn excluded(p: Seq<char>, names: Seq<Seq<char>>) -> bool {
    exists|k: int| 0 <= k < components(p).len() && names.contains(#[trigger] components(p)[k])
}

/// `q` lies below `p`: it is `p`, a separator, and anything after that.
pub open spec fn below(q: Seq<char>, p: Seq<char>) -> bool {
    &&& p.len() < q.len()
    &&& q.subrange(0, p.len() as int) == p
    &&& is_separator(q[p.len() as int])
}

/// No component is empty, and none holds a separator: a name that is empty
/// or holds one excludes nothing.
pub proof fn lemma_components_plain(p: Seq<char>, k: int)
    requires
        0 <= k < components(p).len(),
    ensures
        components(p)[k].len() > 0,
        forall|i: int| 0 <= i < components(p)[k].len() ==> !is_separator(components(p)[k][i]),
    decreases p.len(),
{
    let head = p.drop_last();
    let before = components(head);
    if is_separator(p.last()) {
        lemma_components_plain(head, k);
    } else if head.len() == 0 || is_separator(head.last()) || before.len() == 0 {
        if k < before.len() {
            lemma_components_plain(head, k);
        }
    } else {
        if k < before.len() - 1 {
            lemma_components_plain(head, k);
        } else {
            lemma_components_plain(head, before.len() - 1);
        }
    }
}

/// A run of characters without a separator, which starts the path or follows
/// a separator, is one component, added to those before it.
pub proof fn lemma_run_is_component(p: Seq<char>, s: int, n: int)
    requires
        0 <= s < n <= p.len(),
        s == 0 || is_separator(p[s - 1]),
        forall|k: int| s <= k < n ==> !is_separator(p[k]),
    ensures
        components(p.take(n)) == components(p.take(s)).push(p.subrange(s, n)),
    decreases n - s,
{
    let whole = p.take(n);
    let head = whole.drop_last();
    assert(head =~= p.take(n - 1));
    assert(whole.last() == p[n - 1]);
    if n == s + 1 {
        assert(p.subrange(s, n) =~= seq![p[s]]);
        if head.len() > 0 {
            assert(head.last() == p[s - 1]);
        }
    } else {
        lemma_run_is_component(p, s, n - 1);
        assert(head.last() == p[n - 2]);
        let before = components(head);
        assert(before.drop_last() =~= components(p.take(s)));
        assert(before.last().push(p[n - 1]) =~= p.subrange(s, n));
    }
}

/// A path without a separator, unless it is empty, is its own one component.
pub proof fn lemma_plain_is_one_component(p: Seq<char>)
    requires
        p.len() > 0,
        forall|k: int| 0 <= k < p.len() ==> !is_separator(p[k]),
    ensures
        components(p) == seq![p],
{
    lemma_run_is_component(p, 0, p.len() as int);
    assert(p.take(p.len() as int) =~= p);
    assert(p.subrange(0, p.len() as int) =~= p);
    assert(p.take(0) =~= Seq::<char>::empty());
    assert(components(p.take(0)).push(p) =~= seq![p]);
}

/// Splitting at a separator: the components of two paths joined by a
/// separator are those of the first, then those of the second.
pub proof fn lemma_split_at_separator(a: Seq<char>, b: Seq<char>)
    ensures
        components(a + seq!['/'] + b) == components(a) + components(b),
    decreases b.len(),
{
    let whole = a + seq!['/'] + b;
    let head = whole.drop_last();
    if b.len() == 0 {
        assert(head =~= a);
        assert(components(a) + components(b) =~= components(a));
    } else {
        let short = b.drop_last();
        assert(head =~= a + seq!['/'] + short);
        assert(whole.last() == b.last());
        lemma_split_at_separator(a, short);
        let before = components(head);
        if is_separator(b.last()) {
        } else if short.len() == 0 || is_separator(short.last()) {
            if short.len() > 0 {
                assert(head.last() == short.last());
            }
            assert(before.push(seq![b.last()]) =~= components(a) + components(short).push(
                seq![b.last()],
            ));
        } else {
            assert(head.last() == short.last());
            let inner = components(short);
            assert(inner.len() > 0);
            assert(before.drop_last() =~= components(a) + inner.drop_last());
            assert(before.last() == inner.last());
            assert(before.drop_last().push(before.last().push(b.last())) =~= components(a)
                + inner.drop_last().push(inner.last().push(b.last())));
        }
    }
}

/// A separator closes the component before it and adds none.
pub proof fn lemma_separator_adds_nothing(p: Seq<char>, n: int)
    requires
        0 <= n < p.len(),
        is_separator(p[n]),
    ensures
        components(p.take(n + 1)) == components(p.take(n)),
{
    assert(p.take(n + 1).drop_last() =~= p.take(n));
}

/// The components of a path stay, in their places, in every path below it.
pub proof fn lemma_components_below(q: Seq<char>, p: Seq<char>)
    requires
        below(q, p),
    ensures
        components(p).len() <= components(q).len(),
        forall|k: int| 0 <= k < components(p).len() ==> components(q)[k] == components(p)[k],
        !is_separator(q.last()) ==> components(p).len() < components(q).len(),
    decreases q.len(),
{
    let head = q.drop_last();
    if q.len() == p.len() + 1 {
        assert(head =~= q.subrange(0, p.len() as int));
    } else {
        assert(head.subrange(0, p.len() as int) =~= q.subrange(0, p.len() as int));
        lemma_components_below(head, p);
    }
}

/// Exclusion reaches down: what lies below an excluded path is excluded too,
/// however deep and whatever its own names are.
pub proof fn lemma_excluded_below(q: Seq<char>, p: Seq<char>, names: Seq<Seq<char>>)
    requires
        below(q, p),
        excluded(p, names),
    ensures
        excluded(q, names),
{
    lemma_components_below(q, p);
    let k = choose|k: int|
        0 <= k < components(p).len() && names.contains(#[trigger] components(p)[k]);
    assert(components(q)[k] == components(p)[k]);
}

/// A path none of whose components is excluded has no excluded path above it.
pub proof fn lemma_included_above(q: Seq<char>, p: Seq<char>, names: Seq<Seq<char>>)
    requires
        below(q, p),
        !excluded(q, names),
    ensures
        !excluded(p, names),
{
    if excluded(p, names) {
        lemma_excluded_below(q, p, names);
    }
}

/// Splits a path into its components.
pub fn split_components(path: &str) -> (parts: Vec<String>)
    ensures
        texts(parts@) == components(path@),
{
    let len = path.unicode_len();
    let mut rest = path.chars();
    let mut parts: Vec<String> = Vec::new();
    let mut start: usize = 0;
    let mut n: usize = 0;
    proof {
        assert(path@.take(0) =~= Seq::<char>::empty());
        assert(texts(parts@) =~= components(path@.take(0)));
        assert(path@.skip(0) =~= path@);
    }
    while n < len
        invariant
            len == path@.len(),
            0 <= start <= n <= len,
            start == 0 || is_separator(path@[start - 1]),
            forall|k: int| start <= k < n ==> !is_separator(path@[k]),
            texts(parts@) == components(path@.take(start as int)),
            rest.remaining() == path@.skip(n as int),
        decreases len - n,
    {
        let c = rest.next().unwrap();
        proof {
            assert(c == path@[n as int]);
            assert(path@.skip(n as int).drop_first() =~= path@.skip(n + 1));
        }
        if c == '/' {
            if start < n {
                let piece = path.substring_char(start, n).to_owned();
                proof {
                    lemma_run_is_component(path@, start as int, n as int);
                    assert(texts(parts@.push(piece)) =~= texts(parts@).push(piece@));
                }
                parts.push(piece);
            }
            proof {
                lemma_separator_adds_nothing(path@, n as int);
            }
            start = n + 1;
        }
        n += 1;
    }
    if start < n {
        let piece = path.substring_char(start, n).to_owned();
        proof {
            lemma_run_is_component(path@, start as int, n as int);
            assert(texts(parts@.push(piece)) =~= texts(parts@).push(piece@));
        }
        parts.push(piece);
    }
    proof {
        assert(path@.take(len as int) =~= path@);
    }
    parts
}

/// Whether `name` is, letter for letter, one of `names`.
pub fn is_listed(name: &String, names: &Vec<String>) -> (found: bool)
    ensures
        found == texts(names@).contains(name@),
{
    let mut i: usize = 0;
    while i < names.len()
        invariant
            0 <= i <= names.len(),
            forall|k: int| 0 <= k < i ==> texts(names@)[k] != name@,
        decreases names.len() - i,
    {
        if names[i] == *name {
            assert(texts(names@)[i as int] == name@);
            return true;
        }
        i += 1;
    }
    false
}

/// How many of `parts` are among `names`, counted on rayon's thread pool.
///
/// Calls `par_iter().filter(..).count()` of rayon: `filter` keeps the items
/// for which the closure gave `true`, `count` says how many were kept. The
/// closure is one call of `is_listed`.
#[verifier::external_body]
fn count_listed(parts: &Vec<String>, names: &Vec<String>) -> (hits: usize)
    ensures
        hits == texts(parts@).filter(|c: Seq<char>| texts(names@).contains(c)).len(),
{
    parts.par_iter().filter(|part| is_listed(part, names)).count()
}

/// Whether a list of components holds one of the excluded names.
pub fn any_listed(parts: &Vec<String>, names: &Vec<String>) -> (hit: bool)
    ensures
        hit == exists|k: int|
            0 <= k < parts.len() && texts(names@).contains(#[trigger] texts(parts@)[k]),
{
    let hits = count_listed(parts, names);
    proof {
        let all = texts(parts@);
        let listed = |c: Seq<char>| texts(names@).contains(c);
        let kept = all.filter(listed);
        if hits > 0 {
            all.lemma_filter_pred(listed, 0);
            assert(kept.contains(kept[0]));
            all.lemma_filter_contains_rev(listed, kept[0]);
            let k = choose|k: int| 0 <= k < all.len() && all[k] == kept[0];
            assert(texts(names@).contains(texts(parts@)[k]));
        }
        if exists|k: int|
            0 <= k < parts.len() && texts(names@).contains(#[trigger] texts(parts@)[k]) {
            let k = choose|k: int|
                0 <= k < parts.len() && texts(names@).contains(#[trigger] texts(parts@)[k]);
            all.lemma_filter_contains(listed, k);
        }
    }
    hits != 0
}

/// Whether `path` is out of scope: one of its components is one of `names`.
pub fn is_excluded(path: &str, names: &Vec<String>) -> (out: bool)
    ensures
        out == excluded(path@, texts(names@)),
{
    let parts = split_components(path);
    any_listed(&parts, names)
}

} // verus!
