//! Character-level text operations: global substring replacement and the
//! letter-run smoothing pass, working directly on strings.

use vstd::prelude::*;

verus! {

/// Every non-overlapping occurrence of `from` in `s`, scanning left to right,
/// replaced by `to`. An empty `from` matches nothing and leaves `s` unchanged;
/// the engine only ever substitutes non-empty search strings.
pub open spec fn replace_all(s: Seq<char>, from: Seq<char>, to: Seq<char>) -> Seq<char>
    decreases s.len(),
{
    if from.len() == 0 {
        s
    } else if s.len() < from.len() {
        s
    } else if s.subrange(0, from.len() as int) == from {
        to + replace_all(s.skip(from.len() as int), from, to)
    } else {
        seq![s[0]] + replace_all(s.skip(1), from, to)
    }
}

/// The lower-case letters, in the order the smoothing pass works through them.
pub open spec fn alphabet() -> Seq<char> {
    "abcdefghijklmnopqrstuvwxyz"@
}

/// `s` after smoothing with the first `n` letters of the alphabet: for each
/// letter in turn, one global pass replacing each triple of that letter by a
/// double. The pass is not repeated, so four repeats collapse only to three.
pub open spec fn smooth_upto(s: Seq<char>, n: int) -> Seq<char>
    decreases n,
{
    if n <= 0 {
        s
    } else {
        let c = alphabet()[n - 1];
        replace_all(smooth_upto(s, n - 1), seq![c, c, c], seq![c, c])
    }
}

/// `s` after the full smoothing pass, over all 26 letters in ascending order.
pub open spec fn smooth(s: Seq<char>) -> Seq<char> {
    smooth_upto(s, 26)
}

/// Whether `pat` occurs in `s` at character position `i`.
pub(crate) fn match_at(s: &str, pat: &str, i: usize) -> (r: bool)
    requires
        i + pat@.len() <= s@.len(),
    ensures
        r == (s@.subrange(i as int, i as int + pat@.len() as int) == pat@),
{
    let m = pat.unicode_len();
    let n = s.unicode_len();
    let mut j: usize = 0;
    while j < m
        invariant
            m == pat@.len(),
            n == s@.len(),
            i + m <= n,
            j <= m,
            forall|k: int| 0 <= k < j ==> s@[i + k] == pat@[k],
        decreases m - j,
    {
        if s.get_char(i + j) != pat.get_char(j) {
            proof {
                assert(s@.subrange(i as int, i as int + m as int)[j as int] != pat@[j as int]);
            }
            return false;
        }
        j = j + 1;
    }
    proof {
        assert(s@.subrange(i as int, i as int + m as int) =~= pat@);
    }
    true
}

/// Replaces every non-overlapping occurrence of `from` in `s` by `to`,
/// scanning left to right.
pub(crate) fn replace_all_str(s: &str, from: &str, to: &str) -> (r: String)
    requires
        from@.len() > 0,
    ensures
        r@ == replace_all(s@, from@, to@),
{
    let n = s.unicode_len();
    let flen = from.unicode_len();
    let mut out = String::new();
    let mut i: usize = 0;
    proof {
        assert(s@.skip(0) =~= s@);
        assert(Seq::<char>::empty() + replace_all(s@, from@, to@) =~= replace_all(
            s@,
            from@,
            to@,
        ));
    }
    while i < n
        invariant
            n == s@.len(),
            flen == from@.len(),
            flen > 0,
            i <= n,
            replace_all(s@, from@, to@) == out@ + replace_all(s@.skip(i as int), from@, to@),
        decreases n - i,
    {
        let ghost rest = s@.skip(i as int);
        if flen <= n - i && match_at(s, from, i) {
            proof {
                assert(rest.subrange(0, flen as int) =~= s@.subrange(
                    i as int,
                    i as int + flen as int,
                ));
                assert(rest.skip(flen as int) =~= s@.skip(i as int + flen as int));
                assert(replace_all(rest, from@, to@) == to@ + replace_all(
                    s@.skip(i as int + flen as int),
                    from@,
                    to@,
                ));
            }
            out.append(to);
            i = i + flen;
        } else {
            proof {
                if flen <= n - i {
                    assert(rest.subrange(0, flen as int) =~= s@.subrange(
                        i as int,
                        i as int + flen as int,
                    ));
                    assert(rest.subrange(0, flen as int) != from@);
                }
                assert(rest.skip(1) =~= s@.skip(i as int + 1));
                assert(seq![rest[0]] + rest.skip(1) =~= rest);
                assert(replace_all(rest, from@, to@) == seq![s@[i as int]] + replace_all(
                    s@.skip(i as int + 1),
                    from@,
                    to@,
                ));
            }
            let piece = s.substring_char(i, i + 1);
            proof {
                assert(piece@ =~= seq![s@[i as int]]);
            }
            out.append(piece);
            i = i + 1;
        }
    }
    proof {
        assert(s@.skip(n as int) =~= Seq::<char>::empty());
        assert(replace_all(s@.skip(n as int), from@, to@) =~= Seq::<char>::empty());
        assert(out@ + Seq::<char>::empty() =~= out@);
    }
    out
}

/// The smoothing pass: for each lower-case letter in ascending order, one
/// global replacement of that letter tripled by that letter doubled.
pub(crate) fn smooth_str(s: &str) -> (r: String)
    ensures
        r@ == smooth(s@),
{
    let letters = "abcdefghijklmnopqrstuvwxyz";
    proof {
        reveal_strlit("abcdefghijklmnopqrstuvwxyz");
    }
    let mut word = String::from_str(s);
    let mut i: usize = 0;
    while i < 26
        invariant
            i <= 26,
            letters@ == alphabet(),
            letters@.len() == 26,
            word@ == smooth_upto(s@, i as int),
        decreases 26 - i,
    {
        let letter = letters.substring_char(i, i + 1);
        let ghost c = alphabet()[i as int];
        proof {
            assert(letter@ =~= seq![c]);
        }
        let mut from = String::new();
        from.append(letter);
        from.append(letter);
        from.append(letter);
        let mut to = String::new();
        to.append(letter);
        to.append(letter);
        proof {
            assert(from@ =~= seq![c, c, c]);
            assert(to@ =~= seq![c, c]);
        }
        let next = replace_all_str(word.as_str(), from.as_str(), to.as_str());
        word = next;
        i = i + 1;
    }
    word
}

} // verus!
