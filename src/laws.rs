//! What resolution guarantees, stated over the views.
use vstd::prelude::*;
use crate::config::{ConfigView, fill_from_labels, is_prefix_end, labels_at, merge_level,
    resolved, resolved_upto};

verus! {

/// Linked projects never change a name that is already bound.
pub proof fn lemma_fill_keeps_bound(
    projects: Map<Seq<char>, Map<Seq<char>, Seq<char>>>,
    acc: Map<Seq<char>, Seq<char>>,
    labels: Seq<Seq<char>>,
    x: Seq<char>,
)
    requires
        acc.contains_key(x),
    ensures
        fill_from_labels(projects, acc, labels).contains_key(x),
        fill_from_labels(projects, acc, labels)[x] == acc[x],
    decreases labels.len(),
{
    if labels.len() > 0 {
        lemma_fill_keeps_bound(projects, acc, labels.drop_last(), x);
    }
}

/// Resolution is a function of the store and the directory: resolving the
/// same directory in the same store twice gives the same commands.
pub proof fn lemma_resolution_deterministic(c1: ConfigView, c2: ConfigView, p: Seq<char>)
    requires
        c1 == c2,
    ensures
        resolved(c1, p) == resolved(c2, p),
{
}

/// The deepest directory on the way to `p` that defines `x` directly decides
/// what `x` resolves to: shallower definitions and every linked project are
/// overridden by it.
pub proof fn lemma_deepest_definition_wins(c: ConfigView, p: Seq<char>, n: int, x: Seq<char>)
    requires
        is_prefix_end(p, n),
        c.projects.contains_key(p.take(n)),
        c.projects[p.take(n)].contains_key(x),
        forall|m: int|
            n < m <= p.len() && #[trigger] is_prefix_end(p, m) && c.projects.contains_key(p.take(m))
                ==> !c.projects[p.take(m)].contains_key(x),
    ensures
        resolved(c, p).contains_key(x),
        resolved(c, p)[x] == c.projects[p.take(n)][x],
{
    lemma_bound_from(c, p, n, x, p.len() as int);
}

proof fn lemma_bound_from(c: ConfigView, p: Seq<char>, n: int, x: Seq<char>, m: int)
    requires
        is_prefix_end(p, n),
        n <= m <= p.len(),
        c.projects.contains_key(p.take(n)),
        c.projects[p.take(n)].contains_key(x),
        forall|k: int|
            n < k <= p.len() && #[trigger] is_prefix_end(p, k) && c.projects.contains_key(p.take(k))
                ==> !c.projects[p.take(k)].contains_key(x),
    ensures
        resolved_upto(c, p, m).contains_key(x),
        resolved_upto(c, p, m)[x] == c.projects[p.take(n)][x],
    decreases m,
{
    if m > n {
        lemma_bound_from(c, p, n, x, m - 1);
        if is_prefix_end(p, m) {
            let prev = resolved_upto(c, p, m - 1);
            let dir = p.take(m);
            if c.aliases.contains_key(dir) {
                lemma_fill_keeps_bound(c.projects, prev, c.aliases[dir], x);
            }
        }
    }
}

/// A name that a directory defines directly resolves there to that
/// definition, whatever its ancestors define: with `x` defined at `/a` and at
/// `/a/b`, `/a` resolves it to its own value and `/a/b` to its own.
pub proof fn lemma_own_definition_wins(c: ConfigView, p: Seq<char>, x: Seq<char>)
    requires
        p.len() > 0,
        c.projects.contains_key(p),
        c.projects[p].contains_key(x),
    ensures
        resolved(c, p).contains_key(x),
        resolved(c, p)[x] == c.projects[p][x],
{
    assert(p.take(p.len() as int) =~= p);
    lemma_deepest_definition_wins(c, p, p.len() as int, x);
}

/// A directory's own definition of a name beats the same name in the
/// projects that it links to, whatever the order of its links.
pub proof fn lemma_local_beats_linked(c: ConfigView, p: Seq<char>, label: Seq<char>, y: Seq<char>)
    requires
        p.len() > 0,
        c.aliases.contains_key(p),
        c.aliases[p].contains(label),
        c.projects.contains_key(label),
        c.projects[label].contains_key(y),
        c.projects.contains_key(p),
        c.projects[p].contains_key(y),
    ensures
        resolved(c, p).contains_key(y),
        resolved(c, p)[y] == c.projects[p][y],
{
    lemma_own_definition_wins(c, p, y);
}

/// Linking never changes the names that are bound when the labels are all
/// different from `d`.
proof fn lemma_fill_ignores(
    projects: Map<Seq<char>, Map<Seq<char>, Seq<char>>>,
    acc: Map<Seq<char>, Seq<char>>,
    labels: Seq<Seq<char>>,
    d: Seq<char>,
    m: Map<Seq<char>, Seq<char>>,
)
    requires
        !labels.contains(d),
    ensures
        fill_from_labels(projects.insert(d, m), acc, labels) == fill_from_labels(
            projects,
            acc,
            labels,
        ),
    decreases labels.len(),
{
    if labels.len() > 0 {
        assert(labels.last() == labels[labels.len() - 1]);
        assert forall|i: int| 0 <= i < labels.drop_last().len() implies labels.drop_last()[i] != d by {
            assert(labels.drop_last()[i] == labels[i]);
        }
        lemma_fill_ignores(projects, acc, labels.drop_last(), d, m);
    }
}

/// What is defined at a directory `d` that is neither on the way to `p` nor
/// linked from a directory on that way (a sibling of `p`, say) has no effect on
/// the commands visible at `p`, whatever `d` defines.
pub proof fn lemma_unrelated_isolated(
    c: ConfigView,
    p: Seq<char>,
    d: Seq<char>,
    m: Map<Seq<char>, Seq<char>>,
)
    requires
        forall|i: int| #[trigger] is_prefix_end(p, i) ==> p.take(i) != d,
        forall|i: int|
            #[trigger] is_prefix_end(p, i) && c.aliases.contains_key(p.take(i)) ==> !c.aliases[p.take(
                i,
            )].contains(d),
    ensures
        resolved(ConfigView { projects: c.projects.insert(d, m), ..c }, p) == resolved(c, p),
{
    lemma_isolated_upto(c, p, d, m, p.len() as int);
}

proof fn lemma_isolated_upto(
    c: ConfigView,
    p: Seq<char>,
    d: Seq<char>,
    m: Map<Seq<char>, Seq<char>>,
    n: int,
)
    requires
        forall|i: int| #[trigger] is_prefix_end(p, i) ==> p.take(i) != d,
        forall|i: int|
            #[trigger] is_prefix_end(p, i) && c.aliases.contains_key(p.take(i)) ==> !c.aliases[p.take(
                i,
            )].contains(d),
    ensures
        resolved_upto(ConfigView { projects: c.projects.insert(d, m), ..c }, p, n)
            == resolved_upto(c, p, n),
    decreases n,
{
    let c2 = ConfigView { projects: c.projects.insert(d, m), ..c };
    if n > 0 {
        lemma_isolated_upto(c, p, d, m, n - 1);
        if is_prefix_end(p, n) {
            let dir = p.take(n);
            let prev = resolved_upto(c, p, n - 1);
            if c.aliases.contains_key(dir) {
                lemma_fill_ignores(c.projects, prev, c.aliases[dir], d, m);
            }
            assert(merge_level(c2, prev, dir) == merge_level(c, prev, dir));
        }
    }
}

/// A name of any labelled project is bound once the labels have been merged.
proof fn lemma_fill_covers(
    projects: Map<Seq<char>, Map<Seq<char>, Seq<char>>>,
    acc: Map<Seq<char>, Seq<char>>,
    labels: Seq<Seq<char>>,
    label: Seq<char>,
    x: Seq<char>,
)
    requires
        labels.contains(label),
        projects.contains_key(label),
        projects[label].contains_key(x),
    ensures
        fill_from_labels(projects, acc, labels).contains_key(x),
    decreases labels.len(),
{
    if labels.last() != label {
        let i = choose|i: int| 0 <= i < labels.len() && labels[i] == label;
        assert(labels.drop_last()[i] == label);
        lemma_fill_covers(projects, acc, labels.drop_last(), label, x);
    }
}

/// A name bound after the directories up to index `n` stays bound further down.
proof fn lemma_bound_stays(c: ConfigView, p: Seq<char>, n: int, m: int, x: Seq<char>)
    requires
        0 <= n <= m,
        resolved_upto(c, p, n).contains_key(x),
    ensures
        resolved_upto(c, p, m).contains_key(x),
    decreases m,
{
    if m > n {
        lemma_bound_stays(c, p, n, m - 1, x);
        if is_prefix_end(p, m) {
            lemma_fill_keeps_bound(c.projects, resolved_upto(c, p, m - 1), labels_at(c, p.take(m)), x);
        }
    }
}

/// Every name of a project that a directory links to is visible at that
/// directory and below it, whichever definition ends up winning.
pub proof fn lemma_linked_names_visible(
    c: ConfigView,
    p: Seq<char>,
    n: int,
    label: Seq<char>,
    x: Seq<char>,
)
    requires
        is_prefix_end(p, n),
        labels_at(c, p.take(n)).contains(label),
        c.projects.contains_key(label),
        c.projects[label].contains_key(x),
    ensures
        resolved(c, p).contains_key(x),
{
    lemma_fill_covers(c.projects, resolved_upto(c, p, n - 1), labels_at(c, p.take(n)), label, x);
    assert(resolved_upto(c, p, n) == merge_level(c, resolved_upto(c, p, n - 1), p.take(n)));
    lemma_bound_stays(c, p, n, p.len() as int, x);
}

} // verus!
