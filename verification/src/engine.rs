//! The stateful substitution engine: an ordered pattern list and a single
//! cursor. Each corruption step scans the patterns cyclically, starting just
//! past the cursor, applies the first pattern that changes the word, smooths
//! the result, and parks the cursor on the pattern it applied.

use vstd::prelude::*;

use crate::text;
use crate::text::{replace_all, smooth};

verus! {

/// The views of a pattern list: each `(search, replacement)` pair as a pair of
/// character sequences.
pub open spec fn pattern_views(ps: Seq<(String, String)>) -> Seq<(Seq<char>, Seq<char>)> {
    ps.map_values(|p: (String, String)| (p.0@, p.1@))
}

/// Whether the pattern at index `i` changes the word `w`.
pub open spec fn applies(pats: Seq<(Seq<char>, Seq<char>)>, i: int, w: Seq<char>) -> bool {
    replace_all(w, pats[i].0, pats[i].1) != w
}

/// The index after `i`, wrapping from the last valid index back to `0`.
pub open spec fn wrap_inc(i: int, len: int) -> int {
    if i + 1 < len {
        i + 1
    } else {
        0
    }
}

/// The first index a scan tries: the one just past `start`, cyclically. A
/// fresh engine carries `start == len`, one past the end; its first scan also
/// begins at `1 % len`, and may visit every index.
pub open spec fn first_candidate(start: int, len: int) -> int {
    if start < len {
        wrap_inc(start, len)
    } else if len > 1 {
        1
    } else {
        0
    }
}

/// The cyclic scan: starting at `next` with `tries` candidates left, the first
/// index whose pattern changes `w`, or `None` if the scan reaches `start` or
/// runs out of candidates first. The index `start` itself is never tried.
pub open spec fn scan(
    pats: Seq<(Seq<char>, Seq<char>)>,
    start: int,
    next: int,
    tries: nat,
    w: Seq<char>,
) -> Option<int>
    decreases tries,
{
    if tries == 0 || next == start {
        None
    } else if applies(pats, next, w) {
        Some(next)
    } else {
        scan(pats, start, wrap_inc(next, pats.len() as int), (tries - 1) as nat, w)
    }
}

/// One corruption step on word `w` with the cursor at `cursor`: the resulting
/// word and cursor. If the scan finds a pattern, the word is replaced and
/// smoothed and the cursor moves to that pattern's index; otherwise both are
/// unchanged.
pub open spec fn step(pats: Seq<(Seq<char>, Seq<char>)>, cursor: int, w: Seq<char>) -> (
    Seq<char>,
    int,
) {
    let len = pats.len() as int;
    match scan(pats, cursor, first_candidate(cursor, len), len as nat, w) {
        Some(i) => (smooth(replace_all(w, pats[i].0, pats[i].1)), i),
        None => (w, cursor),
    }
}

/// `n` corruption steps in sequence, each feeding its word and cursor into the
/// next.
pub open spec fn steps(pats: Seq<(Seq<char>, Seq<char>)>, cursor: int, w: Seq<char>, n: nat) -> (
    Seq<char>,
    int,
)
    decreases n,
{
    if n == 0 {
        (w, cursor)
    } else {
        let (w1, c1) = step(pats, cursor, w);
        steps(pats, c1, w1, (n - 1) as nat)
    }
}

/// A successful scan picks a valid pattern index, distinct from `start`,
/// whose pattern changes the word.
pub proof fn lemma_scan_hit(
    pats: Seq<(Seq<char>, Seq<char>)>,
    start: int,
    next: int,
    tries: nat,
    w: Seq<char>,
)
    requires
        0 <= next < pats.len(),
    ensures
        (match scan(pats, start, next, tries, w) {
            Some(i) => 0 <= i < pats.len() && i != start && applies(pats, i, w),
            None => true,
        }),
    decreases tries,
{
    if tries == 0 || next == start {
    } else if applies(pats, next, w) {
    } else {
        lemma_scan_hit(pats, start, wrap_inc(next, pats.len() as int), (tries - 1) as nat, w);
    }
}

/// A corruption step that changes the word never reapplies the pattern the
/// cursor already points at: the scan starts just past the cursor and stops
/// before trying it again.
pub proof fn lemma_step_moves_cursor(pats: Seq<(Seq<char>, Seq<char>)>, cursor: int, w: Seq<char>)
    requires
        cursor >= 0,
    ensures
        ({
            let (w1, c1) = step(pats, cursor, w);
            w1 != w ==> c1 != cursor
        }),
{
    let len = pats.len() as int;
    if len > 0 {
        lemma_scan_hit(pats, cursor, first_candidate(cursor, len), len as nat, w);
    }
}

/// Two consecutive corruption steps never apply the same pattern index: while
/// alternatives remain untried within a cycle, the engine's cursor moves on.
pub proof fn lemma_consecutive_steps_differ(
    pats: Seq<(Seq<char>, Seq<char>)>,
    cursor: int,
    w: Seq<char>,
    v: Seq<char>,
)
    requires
        cursor >= 0,
    ensures
        ({
            let (w1, c1) = step(pats, cursor, w);
            let (v1, c2) = step(pats, c1, v);
            v1 != v ==> c2 != c1
        }),
{
    let len = pats.len() as int;
    let (w1, c1) = step(pats, cursor, w);
    if len > 0 {
        lemma_scan_hit(pats, cursor, first_candidate(cursor, len), len as nat, w);
    }
    lemma_step_moves_cursor(pats, c1, v);
}

/// If no pattern changes the word, a corruption step returns it unchanged and
/// leaves the cursor untouched.
pub proof fn lemma_no_match_is_noop(pats: Seq<(Seq<char>, Seq<char>)>, cursor: int, w: Seq<char>)
    requires
        cursor >= 0,
        forall|i: int| 0 <= i < pats.len() ==> !applies(pats, i, w),
    ensures
        step(pats, cursor, w) == (w, cursor),
{
    let len = pats.len() as int;
    if len > 0 {
        lemma_scan_hit(pats, cursor, first_candidate(cursor, len), len as nat, w);
    }
}

/// A word on which one corruption step finds nothing to change is stable:
/// any number of further steps returns it unchanged, with the cursor
/// untouched.
pub proof fn lemma_exhaustion_idempotent(
    pats: Seq<(Seq<char>, Seq<char>)>,
    cursor: int,
    w: Seq<char>,
    n: nat,
)
    requires
        step(pats, cursor, w) == (w, cursor),
    ensures
        steps(pats, cursor, w, n) == (w, cursor),
    decreases n,
{
    if n == 0 {
    } else {
        lemma_exhaustion_idempotent(pats, cursor, w, (n - 1) as nat);
    }
}

/// Corrupting in stages composes: `m + n` steps equal `m` steps followed by
/// `n` more from the word and cursor the first `m` left behind.
pub proof fn lemma_steps_compose(
    pats: Seq<(Seq<char>, Seq<char>)>,
    cursor: int,
    w: Seq<char>,
    m: nat,
    n: nat,
)
    ensures
        ({
            let (w1, c1) = steps(pats, cursor, w, m);
            steps(pats, cursor, w, m + n) == steps(pats, c1, w1, n)
        }),
    decreases m,
{
    if m == 0 {
    } else {
        let (w1, c1) = step(pats, cursor, w);
        lemma_steps_compose(pats, c1, w1, (m - 1) as nat, n);
    }
}

/// Takes a word and generates a new word by applying sound-shift-style
/// substitution patterns, one pattern per step. The cursor remembers the last
/// pattern applied, so repeated steps on the same engine explore different
/// patterns instead of retrying the first match.
pub struct Corruptor {
    patterns: Vec<(String, String)>,
    cursor: usize,
}

impl Corruptor {
    /// The engine's pattern list, as character sequences.
    pub closed spec fn pats(&self) -> Seq<(Seq<char>, Seq<char>)> {
        pattern_views(self.patterns@)
    }

    /// The engine's cursor.
    pub closed spec fn cur(&self) -> int {
        self.cursor as int
    }

    /// Well-formed: every search string is non-empty. (A pattern is a pair of
    /// non-empty strings; an empty search has no occurrences to replace.)
    pub open spec fn wf(&self) -> bool {
        forall|i: int| 0 <= i < self.pats().len() ==> (#[trigger] self.pats()[i]).0.len() > 0
    }

    /// Constructs an engine over `patterns`; the cursor starts one past the
    /// end, so the first scan begins at index `1 % len` and may visit every
    /// pattern.
    pub fn new(patterns: Vec<(String, String)>) -> (r: Corruptor)
        ensures
            r.pats() == pattern_views(patterns@),
            r.cur() == patterns@.len(),
    {
        let cursor = patterns.len();
        Corruptor { patterns, cursor }
    }

    /// Corrupts `name` once: applies the first pattern, scanning cyclically
    /// from just past the cursor, that changes the word; smooths the result
    /// and moves the cursor to that pattern. If no pattern changes the word
    /// within one full cycle, returns it unchanged and leaves the cursor
    /// where it was.
    pub fn corrupt_once(&mut self, name: &str) -> (r: String)
        requires
            old(self).wf(),
            old(self).pats().len() > 0,
        ensures
            final(self).pats() == old(self).pats(),
            final(self).wf(),
            ({
                let (w1, c1) = step(old(self).pats(), old(self).cur(), name@);
                r@ == w1 && final(self).cur() == c1
            }),
    {
        let len = self.patterns.len();
        let start = self.cursor;
        let word = String::from_str(name);
        let mut next: usize = if start < len {
            if start + 1 < len {
                start + 1
            } else {
                0
            }
        } else {
            if len > 1 {
                1
            } else {
                0
            }
        };
        let mut tries: usize = len;
        proof {
            assert(next as int == first_candidate(start as int, len as int));
        }
        while tries > 0 && next != start
            invariant
                self.patterns == old(self).patterns,
                self.cursor == old(self).cursor,
                self.wf(),
                len == self.patterns@.len(),
                start == self.cursor,
                next < len,
                tries <= len,
                word@ == name@,
                scan(
                    self.pats(),
                    start as int,
                    first_candidate(start as int, len as int),
                    len as nat,
                    name@,
                ) == scan(self.pats(), start as int, next as int, tries as nat, name@),
            decreases tries,
        {
            let pair = &self.patterns[next];
            proof {
                assert(self.pats()[next as int] == (pair.0@, pair.1@));
                assert(self.pats()[next as int].0.len() > 0);
            }
            let candidate = text::replace_all_str(word.as_str(), pair.0.as_str(), pair.1.as_str());
            if candidate != word {
                proof {
                    assert(applies(self.pats(), next as int, name@));
                    assert(scan(self.pats(), start as int, next as int, tries as nat, name@)
                        == Some(next as int));
                }
                self.cursor = next;
                return text::smooth_str(candidate.as_str());
            }
            proof {
                assert(!applies(self.pats(), next as int, name@));
            }
            next = if next + 1 < len {
                next + 1
            } else {
                0
            };
            tries = tries - 1;
        }
        proof {
            assert(scan(self.pats(), start as int, next as int, tries as nat, name@) is None);
        }
        String::from_str(name)
    }

    /// Corrupts `name` through `iterations` single steps, feeding each result
    /// into the next call and threading the cursor throughout. Zero
    /// iterations return the word unchanged.
    pub fn corrupt(&mut self, name: &str, iterations: usize) -> (r: String)
        requires
            old(self).wf(),
            old(self).pats().len() > 0,
        ensures
            final(self).pats() == old(self).pats(),
            final(self).wf(),
            ({
                let (w, c) = steps(old(self).pats(), old(self).cur(), name@, iterations as nat);
                r@ == w && final(self).cur() == c
            }),
    {
        let mut word = String::from_str(name);
        let mut k: usize = 0;
        while k < iterations
            invariant
                self.wf(),
                self.pats() == old(self).pats(),
                self.pats().len() > 0,
                k <= iterations,
                steps(old(self).pats(), old(self).cur(), name@, iterations as nat) == steps(
                    self.pats(),
                    self.cur(),
                    word@,
                    (iterations - k) as nat,
                ),
            decreases iterations - k,
        {
            let next = self.corrupt_once(word.as_str());
            word = next;
            k = k + 1;
        }
        word
    }

    /// Smooths a word: for each lower-case letter in ascending order, one
    /// global pass replacing that letter tripled by that letter doubled. The
    /// pass is not repeated within a call, so four repeats collapse only to
    /// three.
    pub fn relax(name: &str) -> (r: String)
        ensures
            r@ == smooth(name@),
    {
        text::smooth_str(name)
    }
}

} // verus!
