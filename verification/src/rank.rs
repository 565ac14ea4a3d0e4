//! The result collector: orders the discovered word paths longest first,
//! keeping equal lengths in their original order, and exposes the leading
//! results for display.

use vstd::prelude::*;
use crate::grid::{clone_path, Path, Point};

verus! {

/// How many results the presentation shows.
pub const TOP_COUNT: usize = 9;

/// Places `p` in a length-descending sequence: before the first element it
/// is at least as long as, so an inserted path goes ahead of the paths of
/// equal length already there.
pub open spec fn insert_ranked(p: Path, s: Seq<Path>) -> Seq<Path>
    decreases s.len(),
{
    if s.len() == 0 {
        seq![p]
    } else if p@.len() >= s[0]@.len() {
        seq![p] + s
    } else {
        seq![s[0]] + insert_ranked(p, s.drop_first())
    }
}

/// The stable length-descending ordering of `s`: every element inserted,
/// first element first, into the ranked rest, so that of two equally long
/// paths the earlier one stays first.
pub open spec fn ranked(s: Seq<Path>) -> Seq<Path>
    decreases s.len(),
{
    if s.len() == 0 {
        Seq::empty()
    } else {
        insert_ranked(s[0], ranked(s.drop_first()))
    }
}

/// The cell sequences of a sequence of paths.
pub open spec fn views_of(s: Seq<Path>) -> Seq<Seq<Point>> {
    s.map_values(|p: Path| p@)
}

/// Lengths never increase along the sequence: longest first.
pub open spec fn sorted_desc(s: Seq<Path>) -> bool {
    forall|i: int, j: int|
        0 <= i < j < s.len() ==> (#[trigger] s[i])@.len() >= (#[trigger] s[j])@.len()
}

/// Ranked insertion keeps the sequence sorted and adds exactly the
/// inserted path.
proof fn lemma_insert_ranked_props(p: Path, s: Seq<Path>)
    requires
        sorted_desc(s),
    ensures
        insert_ranked(p, s).len() == s.len() + 1,
        insert_ranked(p, s).to_multiset() == s.to_multiset().insert(p),
        sorted_desc(insert_ranked(p, s)),
    decreases s.len(),
{
    broadcast use vstd::seq_lib::group_to_multiset_ensures;

    let out = insert_ranked(p, s);
    if s.len() == 0 {
        assert(out =~= Seq::<Path>::empty().push(p));
        assert(out.to_multiset() =~= s.to_multiset().insert(p));
    } else if p@.len() >= s[0]@.len() {
        assert(out =~= s.insert(0, p));
        assert(out.remove(0) =~= s);
        assert(out.to_multiset().remove(p) =~= s.to_multiset());
        assert(out.to_multiset().contains(p)) by {
            assert(out[0] == p);
            assert(out.contains(p));
        }
        assert(out.to_multiset() =~= s.to_multiset().insert(p));
        assert forall|i: int, j: int|
            0 <= i < j < out.len() implies (#[trigger] out[i])@.len() >= (
        #[trigger] out[j])@.len() by {
            if i > 0 {
                assert(out[i] == s[i - 1] && out[j] == s[j - 1]);
            } else {
                assert(out[j] == s[j - 1]);
                assert(s[0]@.len() >= s[j - 1]@.len());
            }
        }
    } else {
        assert(sorted_desc(s.drop_first())) by {
            assert forall|i: int, j: int|
                0 <= i < j < s.drop_first().len() implies (#[trigger] s.drop_first()[i])@.len()
                    >= (#[trigger] s.drop_first()[j])@.len() by {
                assert(s.drop_first()[i] == s[i + 1] && s.drop_first()[j] == s[j + 1]);
            }
        }
        lemma_insert_ranked_props(p, s.drop_first());
        let rest = insert_ranked(p, s.drop_first());
        assert(out =~= rest.insert(0, s[0]));
        assert(out.remove(0) =~= rest);
        assert(out.to_multiset().remove(s[0]) =~= rest.to_multiset());
        assert(out.to_multiset().contains(s[0])) by {
            assert(out[0] == s[0]);
            assert(out.contains(s[0]));
        }
        assert(s.drop_first() =~= s.remove(0));
        assert(s.to_multiset().remove(s[0]) =~= s.drop_first().to_multiset());
        assert(s.to_multiset().contains(s[0])) by {
            assert(s.contains(s[0]));
        }
        assert(out.to_multiset() =~= s.to_multiset().insert(p));
        assert forall|i: int, j: int|
            0 <= i < j < out.len() implies (#[trigger] out[i])@.len() >= (
        #[trigger] out[j])@.len() by {
            if i > 0 {
                assert(out[i] == rest[i - 1] && out[j] == rest[j - 1]);
            } else {
                assert(out[j] == rest[j - 1]);
                assert(rest.contains(rest[j - 1]));
                assert(rest.to_multiset().contains(rest[j - 1]));
                if rest[j - 1] == p {
                    assert(s[0]@.len() >= p@.len());
                } else {
                    assert(s.drop_first().to_multiset().contains(rest[j - 1]));
                    assert(s.drop_first().contains(rest[j - 1]));
                    let k = choose|k: int|
                        0 <= k < s.drop_first().len() && s.drop_first()[k] == rest[j - 1];
                    assert(s[k + 1] == rest[j - 1]);
                    assert(s[0]@.len() >= s[k + 1]@.len());
                }
            }
        }
    }
}

/// Law: the ranked sequence is a permutation of the discoveries, ordered
/// by path length, longest first; equal lengths keep their input order by
/// the definition of [`ranked`] itself.
pub proof fn lemma_ranked_is_sorted_permutation(s: Seq<Path>)
    ensures
        ranked(s).len() == s.len(),
        ranked(s).to_multiset() == s.to_multiset(),
        sorted_desc(ranked(s)),
    decreases s.len(),
{
    broadcast use vstd::seq_lib::group_to_multiset_ensures;

    if s.len() == 0 {
        assert(ranked(s) =~= Seq::<Path>::empty());
    } else {
        lemma_ranked_is_sorted_permutation(s.drop_first());
        lemma_insert_ranked_props(s[0], ranked(s.drop_first()));
        assert(s.drop_first() =~= s.remove(0));
        assert(s.to_multiset().remove(s[0]) =~= s.drop_first().to_multiset());
        assert(s.to_multiset().contains(s[0])) by {
            assert(s.contains(s[0]));
        }
        assert(ranked(s).to_multiset() =~= s.to_multiset());
    }
}

/// When everything before `j` is strictly longer than `p` and `j` is the
/// first place that is not, inserting by rank is inserting at `j`.
proof fn lemma_insert_ranked_at(p: Path, s: Seq<Path>, j: int)
    requires
        0 <= j <= s.len(),
        forall|i: int| 0 <= i < j ==> p@.len() < (#[trigger] s[i])@.len(),
        j < s.len() ==> p@.len() >= s[j]@.len(),
    ensures
        insert_ranked(p, s) == s.insert(j, p),
    decreases j,
{
    if j == 0 {
        assert(insert_ranked(p, s) =~= s.insert(0, p));
    } else {
        assert(forall|i: int|
            0 <= i < j - 1 ==> p@.len() < (#[trigger] s.drop_first()[i])@.len());
        lemma_insert_ranked_at(p, s.drop_first(), j - 1);
        assert(insert_ranked(p, s) =~= s.insert(j, p));
    }
}

/// Inserts one path into a length-descending vector, keeping it ranked.
fn insert_sorted(r: &mut Vec<Path>, p: Path)
    ensures
        final(r)@ == insert_ranked(p, old(r)@),
{
    let mut j: usize = 0;
    while j < r.len() && r[j].len() > p.len()
        invariant
            j <= r@.len(),
            r@ == old(r)@,
            forall|i: int| 0 <= i < j ==> p@.len() < (#[trigger] r@[i])@.len(),
        decreases r@.len() - j,
    {
        j += 1;
    }
    proof {
        lemma_insert_ranked_at(p, r@, j as int);
    }
    r.insert(j, p);
}

/// Sorts the discovered paths by length, longest first; paths of equal
/// length keep the order in which they were discovered.
pub fn rank(mut paths: Vec<Path>) -> (r: Vec<Path>)
    ensures
        r@ == ranked(paths@),
{
    let ghost original = paths@;
    let mut r: Vec<Path> = Vec::new();
    proof {
        assert(original.take(original.len() as int) =~= original);
        assert(original.skip(original.len() as int) =~= Seq::<Path>::empty());
    }
    while paths.len() > 0
        invariant
            paths@.len() <= original.len(),
            paths@ == original.take(paths@.len() as int),
            r@ == ranked(original.skip(paths@.len() as int)),
        decreases paths@.len(),
    {
        let p = paths.pop().unwrap();
        let ghost k = paths@.len() as int;
        proof {
            assert(p == original[k]);
            assert(paths@ =~= original.take(k));
        }
        insert_sorted(&mut r, p);
        proof {
            assert(original.skip(k)[0] == original[k]);
            assert(original.skip(k).drop_first() =~= original.skip(k + 1));
        }
    }
    proof {
        assert(original.skip(0) =~= original);
    }
    r
}

/// The first `n` of the ranked paths, copied out; fewer when fewer exist.
/// The full ranked collection stays with the caller.
pub fn top_n(paths: &Vec<Path>, n: usize) -> (r: Vec<Path>)
    ensures
        views_of(r@) == views_of(paths@).take(
            if n <= paths@.len() {
                n as int
            } else {
                paths@.len() as int
            },
        ),
{
    let count = if n <= paths.len() {
        n
    } else {
        paths.len()
    };
    let mut r: Vec<Path> = Vec::new();
    let mut i: usize = 0;
    while i < count
        invariant
            count <= paths@.len(),
            i <= count,
            r@.len() == i,
            forall|j: int| 0 <= j < i ==> (#[trigger] r@[j])@ == paths@[j]@,
        decreases count - i,
    {
        r.push(clone_path(&paths[i]));
        i += 1;
    }
    proof {
        assert(views_of(r@) =~= views_of(paths@).take(count as int));
    }
    r
}

} // verus!
