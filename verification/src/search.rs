//! The depth-first path search: from every cell of the board it extends a
//! path through unvisited adjacent cells, pruning any branch whose letters
//! are neither a known word nor a prefix of one, and records every path
//! whose letters spell a dictionary word.
//!
//! The contracts state both directions: everything recorded is a walk that
//! spells a word, and every walk that spells a word is recorded — pruning
//! loses nothing, by the prefix-closure of the dictionary index.

use vstd::prelude::*;
use crate::dict::{dict_is_word, lemma_prune_sound, Words};
use crate::grid::{clone_path, lemma_path_len_bound, points_adjacent, Board, Path, Point};

verus! {

/// `e` is one of the captured paths of `kp`.
pub open spec fn recorded_in(kp: Seq<Path>, e: Seq<Point>) -> bool {
    exists|k: int| 0 <= k < kp.len() && (#[trigger] kp[k])@ == e
}

/// A recording, once made, survives every later append.
proof fn lemma_recorded_persists(kp1: Seq<Path>, kp2: Seq<Path>, e: Seq<Point>)
    requires
        kp1.is_prefix_of(kp2),
        recorded_in(kp1, e),
    ensures
        recorded_in(kp2, e),
{
    let k = choose|k: int| 0 <= k < kp1.len() && (#[trigger] kp1[k])@ == e;
    assert(kp2[k]@ == e);
}

impl Board {
    /// A walk the search keeps: in-bounds distinct cells, each adjacent to
    /// the one before it.
    pub open spec fn path_ok(self, path: Seq<Point>) -> bool {
        &&& self.path_in_bounds(path)
        &&& path.no_duplicates()
        &&& forall|i: int|
            0 <= i < path.len() - 1 ==> points_adjacent(#[trigger] path[i], path[i + 1])
    }

    /// A discovery: a walk whose letters spell a word of `d`.
    pub open spec fn found_word(self, d: Set<Seq<char>>, path: Seq<Point>) -> bool {
        &&& self.path_ok(path)
        &&& dict_is_word(d, self.chars_of(path))
    }

    /// Taking a prefix of a walk takes the same prefix of its letters.
    proof fn lemma_chars_prefix(self, p: Seq<Point>, m: int)
        requires
            0 <= m <= p.len(),
        ensures
            self.chars_of(p).take(m) == self.chars_of(p.take(m)),
    {
        assert(self.chars_of(p).take(m) =~= self.chars_of(p.take(m)));
    }

    /// One branch of the search. `path` is the walk so far, ending at
    /// `point`; every extension through unvisited neighbours whose letters
    /// are still a known word or prefix is explored, and each walk that
    /// spells a word is captured by value into `known_paths`. The walk is
    /// restored before returning. Everything appended is a discovery
    /// extending the walk the call began with — and every discovery
    /// extending that walk is appended: the pruned branches hold none.
    pub fn word_walk(
        &self,
        path: &mut Path,
        known_paths: &mut Vec<Path>,
        point: &Point,
        words: &Words,
    )
        requires
            self.wf(),
            words.wf(),
            old(path)@.len() >= 1,
            old(path)@.last() == *point,
            self.path_ok(old(path)@),
        ensures
            final(path)@ == old(path)@,
            old(known_paths)@.is_prefix_of(final(known_paths)@),
            forall|k: int|
                old(known_paths)@.len() <= k < final(known_paths)@.len() ==> old(path)@.is_prefix_of(
                    (#[trigger] final(known_paths)@[k])@,
                ) && self.found_word(words@, final(known_paths)@[k]@),
            forall|e: Seq<Point>|
                old(path)@.is_prefix_of(e) && self.path_ok(e) && #[trigger] self.found_word(
                    words@,
                    e,
                ) ==> recorded_in(final(known_paths)@, e),
        decreases self.spec_width() * self.spec_height() - old(path)@.len(),
    {
        let ghost base = old(path)@;
        let ghost kp_base = old(known_paths)@;
        let word_chars = self.to_chars(path);
        let is_whole_word = words.is_word(word_chars);
        if is_whole_word {
            let snapshot = clone_path(path);
            known_paths.push(snapshot);
        }
        let nbours = self.neighbours(point, path);
        proof {
            assert(base =~= base.take(base.len() as int));
            assert(kp_base =~= known_paths@.take(kp_base.len() as int));
            assert forall|k: int|
                kp_base.len() <= k < known_paths@.len() implies base.is_prefix_of(
                    (#[trigger] known_paths@[k])@,
                ) && self.found_word(words@, known_paths@[k]@) by {
                assert(known_paths@[k]@ == base);
                assert(base.is_prefix_of(base));
            }
            assert forall|e: Seq<Point>|
                base.is_prefix_of(e) && self.path_ok(e) && #[trigger] self.found_word(words@, e)
                    && (e == base || (e.len() > base.len() && nbours@.take(0).contains(
                    e[base.len() as int],
                ))) implies recorded_in(known_paths@, e) by {
                if e == base {
                    assert(is_whole_word);
                    assert(known_paths@[kp_base.len() as int]@ == base);
                }
            }
        }
        let mut i: usize = 0;
        while i < nbours.len()
            invariant
                self.wf(),
                words.wf(),
                base.len() >= 1,
                base.last() == *point,
                self.path_ok(base),
                path@ == base,
                base == old(path)@,
                kp_base == old(known_paths)@,
                i <= nbours@.len(),
                forall|n: int|
                    0 <= n < nbours@.len() ==> self.in_bounds(#[trigger] nbours@[n])
                        && points_adjacent(*point, nbours@[n]) && !base.contains(nbours@[n]),
                kp_base.is_prefix_of(known_paths@),
                forall|k: int|
                    kp_base.len() <= k < known_paths@.len() ==> base.is_prefix_of(
                        (#[trigger] known_paths@[k])@,
                    ) && self.found_word(words@, known_paths@[k]@),
                forall|e: Seq<Point>|
                    base.is_prefix_of(e) && self.path_ok(e) && #[trigger] self.found_word(
                        words@,
                        e,
                    ) && (e == base || (e.len() > base.len() && nbours@.take(i as int).contains(
                        e[base.len() as int],
                    ))) ==> recorded_in(known_paths@, e),
            decreases nbours@.len() - i,
        {
            let nbour = nbours[i];
            path.push(nbour);
            let ghost pushed = path@;
            proof {
                assert forall|j: int| 0 <= j < path@.len() implies self.in_bounds(
                    #[trigger] path@[j],
                ) by {}
                assert(path@.no_duplicates());
                assert forall|j: int| 0 <= j < path@.len() - 1 implies points_adjacent(
                    #[trigger] path@[j],
                    path@[j + 1],
                ) by {
                    if j == path@.len() - 2 {
                        assert(path@[j] == *point);
                    }
                }
                lemma_path_len_bound(*self, path@);
            }
            let cand = self.to_chars(path);
            let ghost cand_chars = cand@;
            let ghost kp_before = known_paths@;
            let extended = words.has(cand);
            if extended {
                self.word_walk(path, known_paths, &nbour, words);
            }
            proof {
                assert forall|k: int|
                    kp_base.len() <= k < known_paths@.len() implies base.is_prefix_of(
                        (#[trigger] known_paths@[k])@,
                    ) && self.found_word(words@, known_paths@[k]@) by {
                    if k >= kp_before.len() {
                        assert(pushed.is_prefix_of(known_paths@[k]@));
                        assert(base =~= pushed.take(base.len() as int));
                        assert(base.is_prefix_of(known_paths@[k]@));
                    } else {
                        assert(known_paths@[k] == kp_before[k]);
                    }
                }
                assert forall|e: Seq<Point>|
                    base.is_prefix_of(e) && self.path_ok(e) && #[trigger] self.found_word(
                        words@,
                        e,
                    ) && (e == base || (e.len() > base.len() && nbours@.take(
                        i as int + 1,
                    ).contains(e[base.len() as int]))) implies recorded_in(known_paths@, e) by {
                    if e == base || (e.len() > base.len() && nbours@.take(i as int).contains(
                        e[base.len() as int],
                    )) {
                        lemma_recorded_persists(kp_before, known_paths@, e);
                    } else {
                        let bl = base.len() as int;
                        let j = choose|j: int|
                            0 <= j < nbours@.take(i as int + 1).len() && #[trigger] nbours@.take(
                                i as int + 1,
                            )[j] == e[bl];
                        assert(j == i as int);
                        assert(e[bl] == nbour);
                        assert(pushed =~= e.take(bl + 1));
                        assert(pushed.is_prefix_of(e));
                        if extended {
                            assert(recorded_in(known_paths@, e));
                        } else {
                            assert(cand_chars == self.chars_of(pushed));
                            self.lemma_chars_prefix(e, bl + 1);
                            assert(self.chars_of(e).take(bl + 1) == cand_chars);
                            lemma_prune_sound(words@, cand_chars, self.chars_of(e));
                            assert(!dict_is_word(words@, self.chars_of(e)));
                        }
                    }
                }
            }
            path.pop();
            proof {
                assert(path@ =~= base);
            }
            i += 1;
        }
        proof {
            assert forall|e: Seq<Point>|
                base.is_prefix_of(e) && self.path_ok(e) && #[trigger] self.found_word(
                    words@,
                    e,
                ) implies recorded_in(known_paths@, e) by {
                if e != base {
                    if e.len() == base.len() {
                        assert(e =~= base);
                    }
                    let bl = base.len() as int;
                    let n = e[bl];
                    assert(self.in_bounds(n));
                    assert(e[bl - 1] == base[bl - 1]);
                    assert(points_adjacent(*point, n));
                    assert(!base.contains(n)) by {
                        if base.contains(n) {
                            let j = choose|j: int| 0 <= j < base.len() && base[j] == n;
                            assert(e[j] == base[j]);
                        }
                    }
                    assert(nbours@.contains(n));
                    let j = choose|j: int| 0 <= j < nbours@.len() && nbours@[j] == n;
                    assert(nbours@.take(nbours@.len() as int)[j] == n);
                    assert(nbours@.take(nbours@.len() as int).contains(n));
                }
            }
        }
    }

    /// The whole search: every cell of the board seeds a fresh one-cell
    /// walk, and every discovery of every seed is collected. The returned
    /// paths are exactly the walks through the board that spell dictionary
    /// words: each one does, and none is missed.
    pub fn find_words(&self, words: &Words) -> (r: Vec<Path>)
        requires
            self.wf(),
            words.wf(),
        ensures
            forall|k: int|
                0 <= k < r@.len() ==> self.found_word(words@, (#[trigger] r@[k])@),
            forall|e: Seq<Point>|
                #[trigger] self.found_word(words@, e) ==> recorded_in(r@, e),
    {
        let mut found: Vec<Path> = Vec::new();
        let mut x: i16 = 0;
        while x < self.width()
            invariant
                self.wf(),
                words.wf(),
                0 <= x,
                forall|k: int|
                    0 <= k < found@.len() ==> self.found_word(words@, (#[trigger] found@[k])@),
                forall|e: Seq<Point>|
                    #[trigger] self.found_word(words@, e) && e.len() >= 1 && (e[0].x as int) < (
                    x as int) ==> recorded_in(found@, e),
            decreases self.spec_width() - x,
        {
            let mut y: i16 = 0;
            while y < self.height()
                invariant
                    self.wf(),
                    words.wf(),
                    0 <= x && (x as int) < self.spec_width(),
                    0 <= y,
                    forall|k: int|
                        0 <= k < found@.len() ==> self.found_word(words@, (#[trigger] found@[k])@),
                    forall|e: Seq<Point>|
                        #[trigger] self.found_word(words@, e) && e.len() >= 1 && ((e[0].x as int)
                            < (x as int) || (e[0].x as int == x as int && (e[0].y as int) < (
                        y as int))) ==> recorded_in(found@, e),
                decreases self.spec_height() - y,
            {
                let seed = Point { x, y };
                let mut first_path: Path = Vec::new();
                first_path.push(seed);
                proof {
                    assert(first_path@.last() == seed);
                    assert(self.path_ok(first_path@));
                }
                let ghost found_before = found@;
                self.word_walk(&mut first_path, &mut found, &seed, words);
                proof {
                    assert forall|k: int|
                        0 <= k < found@.len() implies self.found_word(
                        words@,
                        (#[trigger] found@[k])@,
                    ) by {
                        if k < found_before.len() {
                            assert(found@[k] == found_before[k]);
                        }
                    }
                    assert forall|e: Seq<Point>|
                        #[trigger] self.found_word(words@, e) && e.len() >= 1 && ((e[0].x as int)
                            < (x as int) || (e[0].x as int == x as int && (e[0].y as int) < (
                        y as int) + 1)) implies recorded_in(found@, e) by {
                        if (e[0].x as int) < (x as int) || (e[0].x as int == x as int && (
                        e[0].y as int) < (y as int)) {
                            lemma_recorded_persists(found_before, found@, e);
                        } else {
                            assert(e[0] == seed);
                            assert(first_path@ =~= e.take(1));
                            assert(first_path@.is_prefix_of(e));
                        }
                    }
                }
                y += 1;
            }
            x += 1;
        }
        proof {
            assert forall|e: Seq<Point>| #[trigger] self.found_word(
                words@,
                e,
            ) implies recorded_in(found@, e) by {
                assert(self.chars_of(e).len() == e.len());
                assert(self.in_bounds(e[0]));
            }
        }
        found
    }
}

} // verus!
