//! A universe for the laws of the grove, tested at run time: whether, among
//! given paths and the paths above them, no two have the same prefix.
use vstd::prelude::*;
use vstd::slice::slice_subrange;
use crate::bytes::bytes_equal;
use crate::consistency::collision_free;
use crate::model::paths_view;
use crate::path::{clone_path, owned_path_view, path_prefix, prefix_of, PathView};

verus! {

/// `q` is `p` or the path of a subtree above the subtree at `p`.
pub open spec fn is_head_of(q: PathView, p: PathView) -> bool {
    q.len() <= p.len() && p.subrange(0, q.len() as int) == q
}

/// `q` is the top-level path, or one of the first `n` of `paths`, or the
/// path of a subtree above one of them.
pub open spec fn covered(paths: Seq<PathView>, n: int, q: PathView) -> bool {
    q.len() == 0 || exists|j: int| 0 <= j < n && j < paths.len() && is_head_of(q, #[trigger] paths[j])
}

/// The universe of `paths`: the paths themselves, the paths of the subtrees
/// above them, and the top-level path.
pub open spec fn universe_of(paths: Seq<PathView>) -> Set<PathView> {
    Set::new(|q: PathView| covered(paths, paths.len() as int, q))
}

/// With a path the universe of `paths` holds the paths above it.
pub proof fn lemma_universe_closed(paths: Seq<PathView>, a: PathView, i: int)
    requires
        universe_of(paths).contains(a),
        0 <= i <= a.len(),
    ensures
        universe_of(paths).contains(a.subrange(0, i)),
{
    let head = a.subrange(0, i);
    if head.len() > 0 {
        let j = choose|j: int|
            0 <= j < paths.len() && j < paths.len() && is_head_of(a, #[trigger] paths[j]);
        assert(paths[j].subrange(0, i) =~= head);
        assert(is_head_of(head, paths[j]));
    }
}

/// A list with one more path holds what it held, and that path.
proof fn lemma_listed_push(list: Seq<Vec<Vec<u8>>>, path: Vec<Vec<u8>>, q: PathView)
    ensures
        paths_view(list.push(path)) == paths_view(list).push(owned_path_view(path@)),
        paths_view(list).contains(q) || q == owned_path_view(path@) ==> paths_view(
            list.push(path),
        ).contains(q),
{
    let longer = paths_view(list.push(path));
    assert(longer =~= paths_view(list).push(owned_path_view(path@)));
    if paths_view(list).contains(q) {
        let i = choose|i: int| 0 <= i < paths_view(list).len() && paths_view(list)[i] == q;
        assert(longer[i] == q);
    }
    if q == owned_path_view(path@) {
        assert(longer[list.len() as int] == q);
    }
}

/// Whether `a` and `b` are the same path.
pub fn paths_equal(a: &[Vec<u8>], b: &[Vec<u8>]) -> (equal: bool)
    ensures
        equal == (owned_path_view(a@) == owned_path_view(b@)),
{
    if a.len() != b.len() {
        assert(owned_path_view(a@).len() != owned_path_view(b@).len());
        return false;
    }
    let mut i: usize = 0;
    while i < a.len()
        invariant
            a.len() == b.len(),
            i <= a.len(),
            forall|j: int| 0 <= j < i ==> a@[j]@ == b@[j]@,
        decreases a.len() - i,
    {
        if !bytes_equal(a[i].as_slice(), b[i].as_slice()) {
            assert(owned_path_view(a@)[i as int] != owned_path_view(b@)[i as int]);
            return false;
        }
        i += 1;
    }
    assert(owned_path_view(a@) =~= owned_path_view(b@));
    true
}

/// The top-level path, `paths`, and the paths of the subtrees above them.
pub fn with_paths_above(paths: &[Vec<Vec<u8>>]) -> (all: Vec<Vec<Vec<u8>>>)
    ensures
        forall|q: PathView|
            universe_of(paths_view(paths@)).contains(q) <==> #[trigger] paths_view(all@).contains(
                q,
            ),
{
    let ghost given = paths_view(paths@);
    let mut all: Vec<Vec<Vec<u8>>> = Vec::new();
    let top: Vec<Vec<u8>> = Vec::new();
    proof {
        assert(owned_path_view(top@) =~= Seq::<Seq<u8>>::empty());
        lemma_listed_push(all@, top, Seq::empty());
    }
    all.push(top);
    proof {
        assert forall|q: PathView| covered(given, 0, q) implies #[trigger] paths_view(
            all@,
        ).contains(q) by {
            assert(q =~= Seq::<Seq<u8>>::empty());
        }
    }
    let mut j: usize = 0;
    while j < paths.len()
        invariant
            j <= paths.len(),
            given == paths_view(paths@),
            paths_view(all@).contains(Seq::<Seq<u8>>::empty()),
            forall|x: int|
                0 <= x < all@.len() ==> covered(
                    given,
                    given.len() as int,
                    #[trigger] paths_view(all@)[x],
                ),
            forall|q: PathView| covered(given, j as int, q) ==> #[trigger] paths_view(all@).contains(q),
        decreases paths.len() - j,
    {
        let path = &paths[j];
        let ghost whole = owned_path_view(path@);
        assert(given[j as int] == whole);
        let mut i: usize = 0;
        while i < path.len()
            invariant
                i <= path.len(),
                j < paths.len(),
                given == paths_view(paths@),
                whole == owned_path_view(path@),
                given[j as int] == whole,
                paths_view(all@).contains(Seq::<Seq<u8>>::empty()),
                forall|x: int|
                    0 <= x < all@.len() ==> covered(
                        given,
                        given.len() as int,
                        #[trigger] paths_view(all@)[x],
                    ),
                forall|q: PathView|
                    covered(given, j as int, q) ==> #[trigger] paths_view(all@).contains(q),
                forall|q: PathView|
                    is_head_of(q, whole) && q.len() <= i ==> #[trigger] paths_view(all@).contains(q),
            decreases path.len() - i,
        {
            let head = clone_path(slice_subrange(path.as_slice(), 0, i + 1));
            let ghost before = all@;
            proof {
                assert(owned_path_view(head@) =~= whole.subrange(0, i + 1));
                assert(is_head_of(owned_path_view(head@), given[j as int]));
                assert(covered(given, given.len() as int, owned_path_view(head@)));
                lemma_listed_push(before, head, Seq::empty());
                assert forall|q: PathView|
                    paths_view(before).contains(q) || q == owned_path_view(
                        head@,
                    ) implies #[trigger] paths_view(before.push(head)).contains(q) by {
                    lemma_listed_push(before, head, q);
                }
            }
            all.push(head);
            i += 1;
        }
        j += 1;
        proof {
            assert forall|q: PathView| covered(given, j as int, q) implies #[trigger] paths_view(
                all@,
            ).contains(q) by {
                if q.len() > 0 {
                    let at = choose|at: int|
                        0 <= at < j && at < given.len() && is_head_of(q, #[trigger] given[at]);
                    if at < j - 1 {
                        assert(covered(given, j - 1, q));
                    }
                } else {
                    assert(q =~= Seq::<Seq<u8>>::empty());
                }
            }
        }
    }
    proof {
        assert forall|q: PathView|
            universe_of(given).contains(q) <==> #[trigger] paths_view(all@).contains(q) by {
            if paths_view(all@).contains(q) {
                let x = choose|x: int| 0 <= x < paths_view(all@).len() && paths_view(all@)[x] == q;
                assert(covered(given, given.len() as int, paths_view(all@)[x]));
            }
        }
    }
    all
}

/// Whether `paths`, the paths of the subtrees above them and the top-level
/// path make a universe without collisions: whether no two of them have the
/// same prefix.
pub fn is_collision_free(paths: &[Vec<Vec<u8>>]) -> (free: bool)
    ensures
        free == collision_free(universe_of(paths_view(paths@))),
{
    let ghost universe = universe_of(paths_view(paths@));
    let all = with_paths_above(paths);
    let ghost listed = paths_view(all@);
    let mut prefixes: Vec<Vec<u8>> = Vec::new();
    let mut n: usize = 0;
    while n < all.len()
        invariant
            n <= all.len(),
            listed == paths_view(all@),
            prefixes@.len() == n,
            forall|x: int| 0 <= x < n ==> (#[trigger] prefixes@[x])@ == prefix_of(listed[x]),
        decreases all.len() - n,
    {
        prefixes.push(path_prefix(all[n].as_slice()));
        n += 1;
    }
    let mut a: usize = 0;
    while a < all.len()
        invariant
            a <= all.len(),
            listed == paths_view(all@),
            universe == universe_of(paths_view(paths@)),
            prefixes@.len() == all@.len(),
            forall|x: int| 0 <= x < all@.len() ==> (#[trigger] prefixes@[x])@ == prefix_of(listed[x]),
            forall|q: PathView| universe.contains(q) <==> #[trigger] listed.contains(q),
            forall|x: int, y: int|
                #![trigger listed[x], listed[y]]
                0 <= x < a && x < y < listed.len() && prefix_of(listed[x]) == prefix_of(listed[y])
                    ==> listed[x] == listed[y],
        decreases all.len() - a,
    {
        let mut b: usize = a + 1;
        while b < all.len()
            invariant
                a < all.len(),
                a < b <= all.len(),
                listed == paths_view(all@),
                universe == universe_of(paths_view(paths@)),
                prefixes@.len() == all@.len(),
                forall|x: int|
                    0 <= x < all@.len() ==> (#[trigger] prefixes@[x])@ == prefix_of(listed[x]),
                forall|q: PathView| universe.contains(q) <==> #[trigger] listed.contains(q),
                forall|x: int, y: int|
                    #![trigger listed[x], listed[y]]
                    0 <= x < a && x < y < listed.len() && prefix_of(listed[x]) == prefix_of(
                        listed[y],
                    ) ==> listed[x] == listed[y],
                forall|y: int|
                    a < y < b && prefix_of(listed[a as int]) == prefix_of(#[trigger] listed[y])
                        ==> listed[a as int] == listed[y],
            decreases all.len() - b,
        {
            if bytes_equal(prefixes[a].as_slice(), prefixes[b].as_slice()) && !paths_equal(
                all[a].as_slice(),
                all[b].as_slice(),
            ) {
                proof {
                    assert(prefixes@[a as int]@ == prefix_of(listed[a as int]));
                    assert(prefixes@[b as int]@ == prefix_of(listed[b as int]));
                    assert(listed.contains(listed[a as int]));
                    assert(listed.contains(listed[b as int]));
                    assert(universe.contains(listed[a as int]));
                    assert(universe.contains(listed[b as int]));
                    assert(listed[a as int] != listed[b as int]);
                }
                return false;
            }
            proof {
                assert(prefixes@[a as int]@ == prefix_of(listed[a as int]));
                assert(prefixes@[b as int]@ == prefix_of(listed[b as int]));
            }
            b += 1;
        }
        a += 1;
    }
    proof {
        assert forall|p: PathView, q: PathView|
            #![trigger prefix_of(p), prefix_of(q)]
            universe.contains(p) && universe.contains(q) && prefix_of(p) == prefix_of(
                q,
            ) implies p == q by {
            assert(listed.contains(p) && listed.contains(q));
            let x = choose|x: int| 0 <= x < listed.len() && listed[x] == p;
            let y = choose|y: int| 0 <= y < listed.len() && listed[y] == q;
            if x < y {
                assert(listed[x] == listed[y]);
            } else if y < x {
                assert(listed[y] == listed[x]);
            }
        }
        assert forall|p: PathView, i: int|
            #![trigger p.subrange(0, i)]
            universe.contains(p) && 0 <= i <= p.len() implies universe.contains(
                p.subrange(0, i),
            ) by {
            lemma_universe_closed(paths_view(paths@), p, i);
        }
        assert(universe.contains(Seq::<Seq<u8>>::empty()));
    }
    true
}

} // verus!
