//! Scanner: walks a directory tree model and collects every `node_modules`
//! directory that has a `.cache` ancestor.
//!
//! A directory is modelled by [`DirTree`]: its base name and its
//! subdirectories (non-directory entries play no part in scanning, so they
//! are not modelled). A path is a sequence of base-name components, root
//! first. The scanner never descends into a directory named `node_modules`,
//! whether or not it is a match.

use vstd::prelude::*;

verus! {

/// One directory of the tree to scan: its base name and its subdirectories,
/// in enumeration order.
pub struct DirTree {
    pub name: String,
    pub subdirs: Vec<DirTree>,
}

/// True when some component of `path` is exactly `.cache`.
pub open spec fn has_cache_component(path: Seq<Seq<char>>) -> bool {
    exists|i: int| 0 <= i < path.len() && path[i] == ".cache"@
}

/// The matches contributed by the directory `t`, whose own full path is
/// `prefix` followed by `t.name`. `under_cache` says whether `.cache`
/// occurs among the components of `prefix`.
///
/// A directory named `node_modules` is a recursion boundary: it is a match
/// exactly when it sits under `.cache`, and its contents are never examined.
pub open spec fn matches_in(t: DirTree, prefix: Seq<Seq<char>>, under_cache: bool) -> Seq<
    Seq<Seq<char>>,
>
    decreases t,
{
    let full = prefix.push(t.name@);
    if t.name@ == "node_modules"@ {
        if under_cache {
            seq![full]
        } else {
            seq![]
        }
    } else {
        children_matches(
            t.subdirs@,
            t.subdirs@.len() as int,
            full,
            under_cache || t.name@ == ".cache"@,
        )
    }
}

/// The matches contributed by the first `n` subdirectories in `children`,
/// each scanned with full-path prefix `prefix`, concatenated in order.
pub open spec fn children_matches(
    children: Seq<DirTree>,
    n: int,
    prefix: Seq<Seq<char>>,
    under_cache: bool,
) -> Seq<Seq<Seq<char>>>
    decreases children, n,
{
    if n <= 0 || n > children.len() {
        seq![]
    } else {
        children_matches(children, n - 1, prefix, under_cache) + matches_in(
            children[n - 1],
            prefix,
            under_cache,
        )
    }
}

/// What a scan of the tree rooted at `root` returns, when the path leading
/// to `root` consists of the components `ancestors` (root first). Matching
/// starts at the subdirectories of `root`: the scan root itself is never a
/// match, but its name and the names in `ancestors` count as ancestors for
/// the `.cache` test.
pub open spec fn scan_matches(root: DirTree, ancestors: Seq<Seq<char>>) -> Seq<Seq<Seq<char>>> {
    let full = ancestors.push(root.name@);
    children_matches(root.subdirs@, root.subdirs@.len() as int, full, has_cache_component(full))
}

/// A copy of `path` whose elements are equal to the originals.
pub(crate) fn clone_path(path: &Vec<String>) -> (r: Vec<String>)
    ensures
        r@ == path@,
{
    let mut r: Vec<String> = Vec::new();
    let mut i: usize = 0;
    while i < path.len()
        invariant
            i <= path@.len(),
            r@ =~= path@.subrange(0, i as int),
        decreases path@.len() - i,
    {
        r.push(path[i].clone());
        i = i + 1;
    }
    proof {
        assert(r@ =~= path@);
    }
    r
}

/// True when some component of `path` is exactly `.cache`; the executable
/// side of [`has_cache_component`].
pub fn contains_cache(path: &Vec<String>) -> (r: bool)
    ensures
        r == has_cache_component(path.deep_view()),
{
    let mut found = false;
    let mut i: usize = 0;
    while i < path.len()
        invariant
            i <= path@.len(),
            found == exists|j: int| 0 <= j < i && path@[j]@ == ".cache"@,
        decreases path@.len() - i,
    {
        if name_is(&path[i], ".cache") {
            found = true;
        }
        i = i + 1;
    }
    proof {
        if found {
            let j = choose|j: int| 0 <= j < path@.len() && path@[j]@ == ".cache"@;
            assert(path.deep_view()[j] == ".cache"@);
        }
        if has_cache_component(path.deep_view()) {
            let j = choose|j: int|
                0 <= j < path.deep_view().len() && path.deep_view()[j] == ".cache"@;
            assert(path@[j]@ == ".cache"@);
        }
    }
    found
}

/// Appends to `out` every match found in the tree rooted at `t`, in
/// depth-first order. `prefix` holds the path components above `t`, and
/// `under_cache` says whether one of them is `.cache`.
fn scan_node(t: &DirTree, prefix: &Vec<String>, under_cache: bool, out: &mut Vec<Vec<String>>)
    ensures
        final (out).deep_view() == old(out).deep_view() + matches_in(
            *t,
            prefix.deep_view(),
            under_cache,
        ),
    decreases *t,
{
    let mut full: Vec<String> = clone_path(prefix);
    full.push(t.name.clone());
    proof {
        assert(full.deep_view() =~= prefix.deep_view().push(t.name@));
    }
    if is_scan_boundary(&t.name) {
        if under_cache {
            let ghost before = out.deep_view();
            let ghost fullv = full.deep_view();
            out.push(full);
            proof {
                assert(out.deep_view() =~= before.push(fullv));
                assert(before.push(fullv) =~= before + matches_in(
                    *t,
                    prefix.deep_view(),
                    under_cache,
                ));
            }
        } else {
            proof {
                assert(out.deep_view() =~= out.deep_view() + matches_in(
                    *t,
                    prefix.deep_view(),
                    under_cache,
                ));
            }
        }
    } else {
        let under2 = under_cache || name_is(&t.name, ".cache");
        scan_children(&t.subdirs, &full, under2, out);
    }
}

/// Appends to `out` every match found in the trees of `children`, in order;
/// `prefix` holds the path components above each of them.
fn scan_children(
    children: &Vec<DirTree>,
    prefix: &Vec<String>,
    under_cache: bool,
    out: &mut Vec<Vec<String>>,
)
    ensures
        final (out).deep_view() == old(out).deep_view() + children_matches(
            children@,
            children@.len() as int,
            prefix.deep_view(),
            under_cache,
        ),
    decreases *children,
{
    let mut i: usize = 0;
    while i < children.len()
        invariant
            i <= children@.len(),
            out.deep_view() == old(out).deep_view() + children_matches(
                children@,
                i as int,
                prefix.deep_view(),
                under_cache,
            ),
        decreases children@.len() - i,
    {
        let ghost before = out.deep_view();
        scan_node(&children[i], prefix, under_cache, out);
        proof {
            assert(children_matches(
                children@,
                i as int + 1,
                prefix.deep_view(),
                under_cache,
            ) == children_matches(children@, i as int, prefix.deep_view(), under_cache)
                + matches_in(children@[i as int], prefix.deep_view(), under_cache));
            assert(out.deep_view() =~= old(out).deep_view() + children_matches(
                children@,
                i as int + 1,
                prefix.deep_view(),
                under_cache,
            ));
        }
        i = i + 1;
    }
}

/// Scans the tree rooted at `root` and returns the full path (as
/// components, root first) of every `node_modules` directory under it that
/// has a `.cache` ancestor, in depth-first order. `ancestors` gives the
/// path components leading to `root`; they and `root`'s own name take part
/// in the `.cache` ancestor test, but `root` itself is never a match.
pub fn scan(root: &DirTree, ancestors: &Vec<String>) -> (matches: Vec<Vec<String>>)
    ensures
        matches.deep_view() == scan_matches(*root, ancestors.deep_view()),
{
    let mut full: Vec<String> = clone_path(ancestors);
    full.push(root.name.clone());
    proof {
        assert(full.deep_view() =~= ancestors.deep_view().push(root.name@));
    }
    let under_cache = contains_cache(&full);
    let mut out: Vec<Vec<String>> = Vec::new();
    proof {
        assert(out.deep_view() =~= Seq::<Seq<Seq<char>>>::empty());
    }
    scan_children(&root.subdirs, &full, under_cache, &mut out);
    proof {
        assert(out.deep_view() =~= scan_matches(*root, ancestors.deep_view()));
    }
    out
}

/// What the scanner guarantees of each returned path: it names a
/// `node_modules` directory, and a strict ancestor component is `.cache`.
pub open spec fn is_valid_match(m: Seq<Seq<char>>) -> bool {
    &&& m.len() >= 2
    &&& m.last() == "node_modules"@
    &&& exists|i: int| 0 <= i < m.len() - 1 && m[i] == ".cache"@
}

/// The inductive shape of a match `m` found under the full-path prefix
/// `prefix`: it strictly extends `prefix`, ends in `node_modules`, has no
/// other `node_modules` component beyond `prefix`, and some strict ancestor
/// component is `.cache`.
spec fn match_shape(m: Seq<Seq<char>>, prefix: Seq<Seq<char>>) -> bool {
    &&& m.len() > prefix.len()
    &&& m.subrange(0, prefix.len() as int) == prefix
    &&& m.last() == "node_modules"@
    &&& forall|i: int| prefix.len() <= i < m.len() - 1 ==> m[i] != "node_modules"@
    &&& exists|i: int| 0 <= i < m.len() - 1 && m[i] == ".cache"@
}

proof fn lemma_matches_in_shape(t: DirTree, prefix: Seq<Seq<char>>, under_cache: bool)
    requires
        under_cache ==> has_cache_component(prefix),
    ensures
        forall|k: int|
            0 <= k < matches_in(t, prefix, under_cache).len() ==> match_shape(
                #[trigger] matches_in(t, prefix, under_cache)[k],
                prefix,
            ),
    decreases t,
{
    let full = prefix.push(t.name@);
    if t.name@ == "node_modules"@ {
        if under_cache {
            let m = full;
            assert(m.subrange(0, prefix.len() as int) =~= prefix);
            assert(m.last() == "node_modules"@);
            let j = choose|j: int| 0 <= j < prefix.len() && prefix[j] == ".cache"@;
            assert(m[j] == ".cache"@);
            assert(match_shape(m, prefix));
        }
    } else {
        let under2 = under_cache || t.name@ == ".cache"@;
        if under2 {
            if under_cache {
                let j = choose|j: int| 0 <= j < prefix.len() && prefix[j] == ".cache"@;
                assert(full[j] == ".cache"@);
            } else {
                assert(full[prefix.len() as int] == ".cache"@);
            }
        }
        lemma_children_shape(t.subdirs@, t.subdirs@.len() as int, full, under2);
        let cms = children_matches(t.subdirs@, t.subdirs@.len() as int, full, under2);
        let ms = matches_in(t, prefix, under_cache);
        assert(ms == cms);
        assert forall|k: int| 0 <= k < ms.len() implies match_shape(#[trigger] ms[k], prefix) by {
            let m = ms[k];
            assert(m == cms[k]);
            assert(match_shape(cms[k], full));
            assert(m.subrange(0, prefix.len() as int) =~= prefix) by {
                assert forall|i: int| 0 <= i < prefix.len() implies m.subrange(
                    0,
                    prefix.len() as int,
                )[i] == prefix[i] by {
                    assert(m.subrange(0, full.len() as int)[i] == m[i]);
                    assert(full[i] == prefix[i]);
                }
            }
            assert forall|i: int|
                prefix.len() <= i < m.len() - 1 implies m[i] != "node_modules"@ by {
                if i == prefix.len() {
                    assert(m.subrange(0, full.len() as int)[i] == m[i]);
                    assert(m[i] == t.name@);
                }
            }
        }
    }
}

proof fn lemma_children_shape(
    children: Seq<DirTree>,
    n: int,
    prefix: Seq<Seq<char>>,
    under_cache: bool,
)
    requires
        under_cache ==> has_cache_component(prefix),
    ensures
        forall|k: int|
            0 <= k < children_matches(children, n, prefix, under_cache).len() ==> match_shape(
                #[trigger] children_matches(children, n, prefix, under_cache)[k],
                prefix,
            ),
    decreases children, n,
{
    if n <= 0 || n > children.len() {
    } else {
        lemma_children_shape(children, n - 1, prefix, under_cache);
        lemma_matches_in_shape(children[n - 1], prefix, under_cache);
        let left = children_matches(children, n - 1, prefix, under_cache);
        let right = matches_in(children[n - 1], prefix, under_cache);
        let ms = children_matches(children, n, prefix, under_cache);
        assert forall|k: int| 0 <= k < ms.len() implies match_shape(#[trigger] ms[k], prefix) by {
            if k < left.len() {
                assert(ms[k] == left[k]);
            } else {
                assert(ms[k] == right[k - left.len()]);
            }
        }
    }
}

/// Every path that a scan returns names a `node_modules` directory with a
/// `.cache` component strictly above it.
pub proof fn lemma_scan_matches_valid(root: DirTree, ancestors: Seq<Seq<char>>)
    ensures
        forall|k: int|
            0 <= k < scan_matches(root, ancestors).len() ==> is_valid_match(
                #[trigger] scan_matches(root, ancestors)[k],
            ),
{
    let full = ancestors.push(root.name@);
    lemma_children_shape(
        root.subdirs@,
        root.subdirs@.len() as int,
        full,
        has_cache_component(full),
    );
    let ms = scan_matches(root, ancestors);
    assert forall|k: int| 0 <= k < ms.len() implies is_valid_match(#[trigger] ms[k]) by {
        assert(match_shape(ms[k], full));
    }
}

/// True when path `a` is a strict ancestor of path `b`: `b` begins with all
/// of `a`'s components and has more of its own.
pub open spec fn is_strict_ancestor_of(a: Seq<Seq<char>>, b: Seq<Seq<char>>) -> bool {
    a.len() < b.len() && a == b.subrange(0, a.len() as int)
}

/// No path that a scan returns is a strict ancestor of another returned
/// path: matching directories are recursion boundaries, so matches never
/// nest.
pub proof fn lemma_no_nested_matches(root: DirTree, ancestors: Seq<Seq<char>>)
    ensures
        forall|j: int, k: int|
            0 <= j < scan_matches(root, ancestors).len() && 0 <= k < scan_matches(
                root,
                ancestors,
            ).len() ==> !is_strict_ancestor_of(
                #[trigger] scan_matches(root, ancestors)[j],
                #[trigger] scan_matches(root, ancestors)[k],
            ),
{
    let full = ancestors.push(root.name@);
    lemma_children_shape(
        root.subdirs@,
        root.subdirs@.len() as int,
        full,
        has_cache_component(full),
    );
    let ms = scan_matches(root, ancestors);
    assert forall|j: int, k: int|
        0 <= j < ms.len() && 0 <= k < ms.len() implies !is_strict_ancestor_of(
        #[trigger] ms[j],
        #[trigger] ms[k],
    ) by {
        let a = ms[j];
        let b = ms[k];
        assert(match_shape(a, full));
        assert(match_shape(b, full));
        if is_strict_ancestor_of(a, b) {
            let last = a.len() - 1;
            assert(b.subrange(0, a.len() as int)[last] == b[last]);
            assert(b[last] == a.last());
            assert(full.len() <= last < b.len() - 1);
            assert(false);
        }
    }
}

/// A well-formed directory tree: the subdirectories of each directory
/// carry pairwise distinct names, as the entries of a real filesystem
/// directory do.
pub open spec fn wf_tree(t: DirTree) -> bool
    decreases t,
{
    &&& forall|i: int, j: int|
        0 <= i < t.subdirs@.len() && 0 <= j < t.subdirs@.len() && i != j ==> t.subdirs@[i].name@
            != t.subdirs@[j].name@
    &&& forall|i: int| 0 <= i < t.subdirs@.len() ==> wf_tree(#[trigger] t.subdirs@[i])
}

proof fn lemma_matches_in_extend(t: DirTree, prefix: Seq<Seq<char>>, under_cache: bool)
    ensures
        forall|k: int|
            0 <= k < matches_in(t, prefix, under_cache).len() ==> {
                let m = #[trigger] matches_in(t, prefix, under_cache)[k];
                m.len() > prefix.len() && m[prefix.len() as int] == t.name@ && (forall|i: int|
                    0 <= i < prefix.len() ==> m[i] == prefix[i])
            },
    decreases t,
{
    let full = prefix.push(t.name@);
    if t.name@ == "node_modules"@ {
    } else {
        let under2 = under_cache || t.name@ == ".cache"@;
        lemma_children_extend(t.subdirs@, t.subdirs@.len() as int, full, under2);
        let cms = children_matches(t.subdirs@, t.subdirs@.len() as int, full, under2);
        let ms = matches_in(t, prefix, under_cache);
        assert(ms == cms);
        assert forall|k: int| 0 <= k < ms.len() implies {
            let m = #[trigger] ms[k];
            m.len() > prefix.len() && m[prefix.len() as int] == t.name@ && (forall|i: int|
                0 <= i < prefix.len() ==> m[i] == prefix[i])
        } by {
            assert(cms[k].len() > full.len());
            assert(cms[k][prefix.len() as int] == full[prefix.len() as int]);
        }
    }
}

proof fn lemma_children_extend(
    children: Seq<DirTree>,
    n: int,
    prefix: Seq<Seq<char>>,
    under_cache: bool,
)
    ensures
        forall|k: int|
            0 <= k < children_matches(children, n, prefix, under_cache).len() ==> {
                let m = #[trigger] children_matches(children, n, prefix, under_cache)[k];
                m.len() > prefix.len() && (forall|i: int| 0 <= i < prefix.len() ==> m[i] == prefix[i])
            },
    decreases children, n,
{
    if n <= 0 || n > children.len() {
    } else {
        lemma_children_extend(children, n - 1, prefix, under_cache);
        lemma_matches_in_extend(children[n - 1], prefix, under_cache);
        let left = children_matches(children, n - 1, prefix, under_cache);
        let right = matches_in(children[n - 1], prefix, under_cache);
        let ms = children_matches(children, n, prefix, under_cache);
        assert forall|k: int| 0 <= k < ms.len() implies {
            let m = #[trigger] ms[k];
            m.len() > prefix.len() && (forall|i: int| 0 <= i < prefix.len() ==> m[i] == prefix[i])
        } by {
            if k < left.len() {
                assert(ms[k] == left[k]);
            } else {
                assert(ms[k] == right[k - left.len()]);
            }
        }
    }
}

proof fn lemma_matches_in_distinct(t: DirTree, prefix: Seq<Seq<char>>, under_cache: bool)
    requires
        wf_tree(t),
    ensures
        forall|j: int, k: int|
            0 <= j < matches_in(t, prefix, under_cache).len() && 0 <= k < matches_in(
                t,
                prefix,
                under_cache,
            ).len() && j != k ==> #[trigger] matches_in(t, prefix, under_cache)[j]
                != #[trigger] matches_in(t, prefix, under_cache)[k],
    decreases t,
{
    if t.name@ == "node_modules"@ {
    } else {
        let full = prefix.push(t.name@);
        let under2 = under_cache || t.name@ == ".cache"@;
        lemma_children_distinct(t.subdirs@, t.subdirs@.len() as int, full, under2);
        assert(matches_in(t, prefix, under_cache) == children_matches(
            t.subdirs@,
            t.subdirs@.len() as int,
            full,
            under2,
        ));
    }
}

proof fn lemma_children_distinct(
    children: Seq<DirTree>,
    n: int,
    prefix: Seq<Seq<char>>,
    under_cache: bool,
)
    requires
        n <= children.len(),
        forall|i: int, j: int|
            0 <= i < n && 0 <= j < n && i != j ==> children[i].name@ != children[j].name@,
        forall|i: int| 0 <= i < n ==> wf_tree(#[trigger] children[i]),
    ensures
        forall|j: int, k: int|
            0 <= j < children_matches(children, n, prefix, under_cache).len() && 0 <= k
                < children_matches(children, n, prefix, under_cache).len() && j != k
                ==> #[trigger] children_matches(children, n, prefix, under_cache)[j]
                != #[trigger] children_matches(children, n, prefix, under_cache)[k],
        forall|k: int|
            0 <= k < children_matches(children, n, prefix, under_cache).len() ==> exists|i: int|
                0 <= i < n && (#[trigger] children_matches(children, n, prefix, under_cache)[k])[
                    prefix.len() as int
                ] == children[i].name@,
    decreases children, n,
{
    if n <= 0 || n > children.len() {
    } else {
        lemma_children_distinct(children, n - 1, prefix, under_cache);
        lemma_matches_in_distinct(children[n - 1], prefix, under_cache);
        lemma_matches_in_extend(children[n - 1], prefix, under_cache);
        let left = children_matches(children, n - 1, prefix, under_cache);
        let right = matches_in(children[n - 1], prefix, under_cache);
        let ms = children_matches(children, n, prefix, under_cache);
        assert forall|k: int| 0 <= k < ms.len() implies exists|i: int|
            0 <= i < n && (#[trigger] ms[k])[prefix.len() as int] == children[i].name@ by {
            if k < left.len() {
                assert(ms[k] == left[k]);
                let i = choose|i: int|
                    0 <= i < n - 1 && left[k][prefix.len() as int] == children[i].name@;
                assert(ms[k][prefix.len() as int] == children[i].name@);
            } else {
                assert(ms[k] == right[k - left.len()]);
                assert(ms[k][prefix.len() as int] == children[n - 1].name@);
            }
        }
        assert forall|j: int, k: int|
            0 <= j < ms.len() && 0 <= k < ms.len() && j != k implies #[trigger] ms[j]
            != #[trigger] ms[k] by {
            if j < left.len() && k < left.len() {
                assert(ms[j] == left[j]);
                assert(ms[k] == left[k]);
            } else if j >= left.len() && k >= left.len() {
                assert(ms[j] == right[j - left.len()]);
                assert(ms[k] == right[k - left.len()]);
            } else {
                let a = if j < left.len() { j } else { k };
                let b = if j < left.len() { k } else { j };
                assert(ms[a] == left[a]);
                assert(ms[b] == right[b - left.len()]);
                let i = choose|i: int|
                    0 <= i < n - 1 && left[a][prefix.len() as int] == children[i].name@;
                assert(ms[b][prefix.len() as int] == children[n - 1].name@);
                assert(children[i].name@ != children[n - 1].name@);
            }
        }
    }
}

/// On a well-formed tree — one whose sibling directories carry pairwise
/// distinct names, as a real filesystem guarantees — no path is returned
/// twice.
pub proof fn lemma_scan_matches_distinct(root: DirTree, ancestors: Seq<Seq<char>>)
    requires
        wf_tree(root),
    ensures
        forall|j: int, k: int|
            0 <= j < scan_matches(root, ancestors).len() && 0 <= k < scan_matches(
                root,
                ancestors,
            ).len() && j != k ==> #[trigger] scan_matches(root, ancestors)[j]
                != #[trigger] scan_matches(root, ancestors)[k],
{
    let full = ancestors.push(root.name@);
    lemma_children_distinct(
        root.subdirs@,
        root.subdirs@.len() as int,
        full,
        has_cache_component(full),
    );
    assert(scan_matches(root, ancestors) == children_matches(
        root.subdirs@,
        root.subdirs@.len() as int,
        full,
        has_cache_component(full),
    ));
}

/// A `node_modules` directory is a recursion boundary: what stands inside
/// it contributes nothing to the matches, so two trees that differ only in
/// the contents of such a directory scan alike; and when no ancestor is
/// `.cache`, the directory contributes no match at all.
pub proof fn lemma_boundary_subtree_ignored(
    name: String,
    subdirs1: Vec<DirTree>,
    subdirs2: Vec<DirTree>,
    prefix: Seq<Seq<char>>,
    under_cache: bool,
)
    requires
        name@ == "node_modules"@,
    ensures
        matches_in((DirTree { name, subdirs: subdirs1 }), prefix, under_cache) == matches_in(
            (DirTree { name, subdirs: subdirs2 }),
            prefix,
            under_cache,
        ),
        !under_cache ==> matches_in((DirTree { name, subdirs: subdirs1 }), prefix, under_cache)
            == Seq::<Seq<Seq<char>>>::empty(),
{
}

/// True when `name` equals the literal `token`.
fn name_is(name: &String, token: &str) -> (r: bool)
    ensures
        r == (name@ == token@),
{
    let t: String = token.to_owned();
    *name == t
}

/// True when `name` is `node_modules`, the name at which the scanner stops
/// descending. The tree builder consults this so that the contents of a
/// `node_modules` directory are never enumerated.
pub fn is_scan_boundary(name: &String) -> (r: bool)
    ensures
        r == (name@ == "node_modules"@),
{
    name_is(name, "node_modules")
}

} // verus!
