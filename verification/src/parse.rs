//! The pattern-string grammar: a description such as `"bh => b => p; dh => d"`
//! is a `;`-separated list of chains; each chain, trimmed, is a `=>`-separated
//! list of trimmed tokens; a chain with tokens `t0 .. tn` contributes the
//! consecutive pairs `(t0,t1) .. (t(n-1),tn)`, in order. Chains with fewer
//! than two tokens contribute nothing and are not an error.

use vstd::prelude::*;

use crate::engine::pattern_views;
use crate::text;

verus! {

/// Whether `c` is a whitespace character, by the Unicode `White_Space`
/// property (the set `char::is_whitespace` recognises).
pub open spec fn is_whitespace_char(c: char) -> bool {
    c == ' ' || c == '\t' || c == '\n' || c == '\u{000B}' || c == '\u{000C}' || c == '\r'
        || c == '\u{0085}' || c == '\u{00A0}' || c == '\u{1680}' || c == '\u{2000}'
        || c == '\u{2001}' || c == '\u{2002}' || c == '\u{2003}' || c == '\u{2004}'
        || c == '\u{2005}' || c == '\u{2006}' || c == '\u{2007}' || c == '\u{2008}'
        || c == '\u{2009}' || c == '\u{200A}' || c == '\u{2028}' || c == '\u{2029}'
        || c == '\u{202F}' || c == '\u{205F}' || c == '\u{3000}'
}

/// `s` without its leading whitespace.
pub open spec fn trim_start(s: Seq<char>) -> Seq<char>
    decreases s.len(),
{
    if s.len() > 0 && is_whitespace_char(s[0]) {
        trim_start(s.skip(1))
    } else {
        s
    }
}

/// `s` without its trailing whitespace.
pub open spec fn trim_end(s: Seq<char>) -> Seq<char>
    decreases s.len(),
{
    if s.len() > 0 && is_whitespace_char(s[s.len() - 1]) {
        trim_end(s.take(s.len() - 1))
    } else {
        s
    }
}

/// `s` without leading and trailing whitespace.
pub open spec fn trim(s: Seq<char>) -> Seq<char> {
    trim_end(trim_start(s))
}

/// `s` split on every non-overlapping occurrence of `sep`, scanning left to
/// right: always at least one piece, with empty pieces where separators touch.
/// An empty separator does not split; the grammar only splits on `";"` and
/// `"=>"`.
pub open spec fn split(s: Seq<char>, sep: Seq<char>) -> Seq<Seq<char>>
    decreases s.len(),
{
    if sep.len() == 0 {
        seq![s]
    } else if s.len() < sep.len() {
        seq![s]
    } else if s.subrange(0, sep.len() as int) == sep {
        seq![Seq::<char>::empty()] + split(s.skip(sep.len() as int), sep)
    } else {
        let r = split(s.skip(1), sep);
        seq![seq![s[0]] + r[0]] + r.skip(1)
    }
}

/// A split always yields at least one piece.
pub proof fn lemma_split_nonempty(s: Seq<char>, sep: Seq<char>)
    ensures
        split(s, sep).len() >= 1,
    decreases s.len(),
{
    if sep.len() == 0 || s.len() < sep.len() {
    } else if s.subrange(0, sep.len() as int) == sep {
        lemma_split_nonempty(s.skip(sep.len() as int), sep);
    } else {
        lemma_split_nonempty(s.skip(1), sep);
    }
}

/// The token separator of a chain.
pub open spec fn arrow() -> Seq<char> {
    seq!['=', '>']
}

/// Each element of `ts`, trimmed.
pub open spec fn trim_all(ts: Seq<Seq<char>>) -> Seq<Seq<char>> {
    ts.map_values(|t: Seq<char>| trim(t))
}

/// The trimmed tokens of one chain: the chain is trimmed, split on `"=>"`,
/// and each token trimmed.
pub open spec fn chain_tokens(chain: Seq<char>) -> Seq<Seq<char>> {
    trim_all(split(trim(chain), arrow()))
}

/// The consecutive pairs of a token list: `(t0,t1) .. (t(n-1),tn)`. Fewer
/// than two tokens give no pairs.
pub open spec fn chain_pairs(toks: Seq<Seq<char>>) -> Seq<(Seq<char>, Seq<char>)> {
    if toks.len() < 2 {
        Seq::empty()
    } else {
        Seq::new((toks.len() - 1) as nat, |j: int| (toks[j], toks[j + 1]))
    }
}

/// The pairs one chain contributes.
pub open spec fn pairs_of_chain(chain: Seq<char>) -> Seq<(Seq<char>, Seq<char>)> {
    chain_pairs(chain_tokens(chain))
}

/// The pairs of all chains, in order.
pub open spec fn pairs_of_chains(chains: Seq<Seq<char>>) -> Seq<(Seq<char>, Seq<char>)>
    decreases chains.len(),
{
    if chains.len() == 0 {
        Seq::empty()
    } else {
        pairs_of_chain(chains[0]) + pairs_of_chains(chains.skip(1))
    }
}

/// The ordered `(search, replacement)` pairs a pattern string describes.
pub open spec fn parse_spec(input: Seq<char>) -> Seq<(Seq<char>, Seq<char>)> {
    pairs_of_chains(split(input, seq![';']))
}

/// The views of a list of strings.
pub open spec fn str_views(v: Seq<String>) -> Seq<Seq<char>> {
    v.map_values(|x: String| x@)
}

/// Whether `c` is a whitespace character.
fn is_whitespace(c: char) -> (r: bool)
    ensures
        r == is_whitespace_char(c),
{
    c == ' ' || c == '\t' || c == '\n' || c == '\u{000B}' || c == '\u{000C}' || c == '\r'
        || c == '\u{0085}' || c == '\u{00A0}' || c == '\u{1680}' || c == '\u{2000}'
        || c == '\u{2001}' || c == '\u{2002}' || c == '\u{2003}' || c == '\u{2004}'
        || c == '\u{2005}' || c == '\u{2006}' || c == '\u{2007}' || c == '\u{2008}'
        || c == '\u{2009}' || c == '\u{200A}' || c == '\u{2028}' || c == '\u{2029}'
        || c == '\u{202F}' || c == '\u{205F}' || c == '\u{3000}'
}

/// `s` without leading and trailing whitespace.
pub(crate) fn trim_str<'a>(s: &'a str) -> (r: &'a str)
    ensures
        r@ == trim(s@),
{
    let n = s.unicode_len();
    let mut lo: usize = 0;
    proof {
        assert(s@.skip(0) =~= s@);
    }
    while lo < n && is_whitespace(s.get_char(lo))
        invariant
            n == s@.len(),
            lo <= n,
            trim_start(s@) == trim_start(s@.skip(lo as int)),
        decreases n - lo,
    {
        proof {
            assert(s@.skip(lo as int).skip(1) =~= s@.skip(lo as int + 1));
        }
        lo = lo + 1;
    }
    proof {
        assert(trim_start(s@) == s@.skip(lo as int));
        assert(s@.skip(lo as int) =~= s@.subrange(lo as int, n as int));
    }
    let mut hi: usize = n;
    while hi > lo && is_whitespace(s.get_char(hi - 1))
        invariant
            n == s@.len(),
            lo <= hi <= n,
            trim_start(s@) == s@.skip(lo as int),
            trim_end(s@.skip(lo as int)) == trim_end(s@.subrange(lo as int, hi as int)),
        decreases hi,
    {
        proof {
            let part = s@.subrange(lo as int, hi as int);
            assert(part[part.len() - 1] == s@[hi - 1]);
            assert(part.take(part.len() - 1) =~= s@.subrange(lo as int, hi as int - 1));
        }
        hi = hi - 1;
    }
    proof {
        assert(trim_end(s@.subrange(lo as int, hi as int)) == s@.subrange(lo as int, hi as int));
    }
    s.substring_char(lo, hi)
}

/// `seq![p + r[0]] + r.skip(1)`: the first piece of `r` with `p` prepended.
pub open spec fn prepend_first(p: Seq<char>, r: Seq<Seq<char>>) -> Seq<Seq<char>> {
    seq![p + r[0]] + r.skip(1)
}

/// `s` split on every non-overlapping occurrence of `sep`, scanning left to
/// right.
pub(crate) fn split_str(s: &str, sep: &str) -> (r: Vec<String>)
    requires
        sep@.len() > 0,
    ensures
        str_views(r@) == split(s@, sep@),
{
    let n = s.unicode_len();
    let flen = sep.unicode_len();
    let mut pieces: Vec<String> = Vec::new();
    let mut p: usize = 0;
    let mut i: usize = 0;
    proof {
        assert(s@.skip(0) =~= s@);
        assert(s@.subrange(0, 0) =~= Seq::<char>::empty());
        lemma_split_nonempty(s@, sep@);
        let sp = split(s@, sep@);
        assert(seq![Seq::<char>::empty() + sp[0]] + sp.skip(1) =~~= sp);
        assert(str_views(pieces@) + prepend_first(s@.subrange(0, 0), sp) =~~= sp);
    }
    while i < n
        invariant
            n == s@.len(),
            flen == sep@.len(),
            flen > 0,
            p <= i <= n,
            split(s@, sep@) == str_views(pieces@) + prepend_first(
                s@.subrange(p as int, i as int),
                split(s@.skip(i as int), sep@),
            ),
        decreases n - i,
    {
        let ghost rest = s@.skip(i as int);
        let ghost cur = s@.subrange(p as int, i as int);
        if flen <= n - i && text::match_at(s, sep, i) {
            proof {
                assert(rest.subrange(0, flen as int) =~= s@.subrange(
                    i as int,
                    i as int + flen as int,
                ));
                assert(rest.skip(flen as int) =~= s@.skip(i as int + flen as int));
                let nxt = split(s@.skip(i as int + flen as int), sep@);
                lemma_split_nonempty(s@.skip(i as int + flen as int), sep@);
                assert(split(rest, sep@) == seq![Seq::<char>::empty()] + nxt);
                assert(prepend_first(cur, split(rest, sep@)) =~~= seq![cur] + nxt);
                assert(s@.subrange(i as int + flen as int, i as int + flen as int)
                    =~= Seq::<char>::empty());
                assert(prepend_first(Seq::<char>::empty(), nxt) =~~= nxt);
            }
            let piece = s.substring_char(p, i);
            let ghost pieces_old = pieces@;
            pieces.push(String::from_str(piece));
            proof {
                assert(str_views(pieces@) =~~= str_views(pieces_old).push(cur));
            }
            i = i + flen;
            p = i;
        } else {
            proof {
                assert(rest.skip(1) =~= s@.skip(i as int + 1));
                let nxt = split(s@.skip(i as int + 1), sep@);
                lemma_split_nonempty(s@.skip(i as int + 1), sep@);
                if flen <= n - i {
                    assert(rest.subrange(0, flen as int) =~= s@.subrange(
                        i as int,
                        i as int + flen as int,
                    ));
                    assert(rest.subrange(0, flen as int) != sep@);
                    assert(split(rest, sep@) == seq![seq![rest[0]] + nxt[0]] + nxt.skip(1));
                } else {
                    assert(split(rest, sep@) == seq![rest]);
                    assert(nxt == seq![s@.skip(i as int + 1)]);
                    assert(rest =~= seq![rest[0]] + s@.skip(i as int + 1));
                    assert(split(rest, sep@) =~~= seq![seq![rest[0]] + nxt[0]] + nxt.skip(1));
                }
                assert(cur + (seq![rest[0]] + nxt[0]) =~= s@.subrange(p as int, i as int + 1)
                    + nxt[0]);
                assert(prepend_first(cur, split(rest, sep@)) =~~= prepend_first(
                    s@.subrange(p as int, i as int + 1),
                    nxt,
                ));
            }
            i = i + 1;
        }
    }
    proof {
        assert(s@.skip(n as int) =~= Seq::<char>::empty());
        assert(split(Seq::<char>::empty(), sep@) == seq![Seq::<char>::empty()]);
        let cur = s@.subrange(p as int, n as int);
        assert(prepend_first(cur, split(s@.skip(n as int), sep@)) =~~= seq![cur]);
    }
    let piece = s.substring_char(p, n);
    let ghost pieces_old = pieces@;
    pieces.push(String::from_str(piece));
    proof {
        assert(str_views(pieces@) =~~= str_views(pieces_old) + seq![
            s@.subrange(p as int, n as int),
        ]);
    }
    pieces
}

/// Parses a chained pattern description, such as `"bh => b => p; dh => d"`,
/// into its ordered `(search, replacement)` pairs.
pub fn parse_patterns(input: &str) -> (r: Vec<(String, String)>)
    ensures
        pattern_views(r@) == parse_spec(input@),
{
    let semi = ";";
    let arrow_sep = "=>";
    proof {
        reveal_strlit(";");
        reveal_strlit("=>");
        assert(semi@ =~= seq![';']);
        assert(arrow_sep@ =~= arrow());
    }
    let chains = split_str(input, semi);
    let ghost cviews = str_views(chains@);
    let mut out: Vec<(String, String)> = Vec::new();
    let mut ci: usize = 0;
    proof {
        assert(cviews.skip(0) =~= cviews);
        assert(pattern_views(out@) =~~= Seq::<(Seq<char>, Seq<char>)>::empty());
    }
    while ci < chains.len()
        invariant
            arrow_sep@ == arrow(),
            cviews == str_views(chains@),
            ci <= chains@.len(),
            parse_spec(input@) == pairs_of_chains(cviews),
            pairs_of_chains(cviews) == pattern_views(out@) + pairs_of_chains(
                cviews.skip(ci as int),
            ),
        decreases chains@.len() - ci,
    {
        let trimmed = trim_str(chains[ci].as_str());
        let toks = split_str(trimmed, arrow_sep);
        let ghost tviews0 = str_views(toks@);
        let mut ttoks: Vec<String> = Vec::new();
        let mut tj: usize = 0;
        proof {
            assert(str_views(ttoks@) =~~= trim_all(tviews0.take(0)));
        }
        while tj < toks.len()
            invariant
                tviews0 == str_views(toks@),
                tj <= toks@.len(),
                str_views(ttoks@) == trim_all(tviews0.take(tj as int)),
            decreases toks@.len() - tj,
        {
            let ghost tt_old = ttoks@;
            let t = String::from_str(trim_str(toks[tj].as_str()));
            let ghost tv = t@;
            ttoks.push(t);
            tj = tj + 1;
            proof {
                let tj1 = tj as int;
                assert(tv == trim(toks@[tj1 - 1]@));
                assert(tviews0[tj1 - 1] == toks@[tj1 - 1]@);
                assert(str_views(tt_old).len() == tt_old.len());
                assert(tviews0.take(tj1 - 1).len() == tj1 - 1);
                assert(trim_all(tviews0.take(tj1 - 1)).len() == tj1 - 1);
                assert(tt_old.len() == tj1 - 1);
                assert(ttoks@.len() == tj1);
                assert(str_views(ttoks@).len() == tj1);
                assert(trim_all(tviews0.take(tj1)).len() == tj1);
                assert forall|k: int| 0 <= k < tj1 implies str_views(ttoks@)[k] == trim_all(
                    tviews0.take(tj1),
                )[k] by {
                    assert(str_views(ttoks@)[k] == ttoks@[k]@);
                    assert(trim_all(tviews0.take(tj1))[k] == trim(tviews0.take(tj1)[k]));
                    assert(tviews0.take(tj1)[k] == tviews0[k]);
                    if k < tj1 - 1 {
                        assert(ttoks@[k] == tt_old[k]);
                        assert(str_views(tt_old)[k] == tt_old[k]@);
                        assert(trim_all(tviews0.take(tj1 - 1))[k] == trim(
                            tviews0.take(tj1 - 1)[k],
                        ));
                        assert(tviews0.take(tj1 - 1)[k] == tviews0[k]);
                    } else {
                        assert(ttoks@[k]@ == tv);
                    }
                }
                assert(str_views(ttoks@) =~= trim_all(tviews0.take(tj1)));
            }
        }
        let ghost tviews = str_views(ttoks@);
        proof {
            assert(tviews0.take(toks@.len() as int) =~= tviews0);
            assert(cviews[ci as int] == chains@[ci as int]@);
            assert(tviews == chain_tokens(cviews[ci as int]));
        }
        let ghost prev = pattern_views(out@);
        if ttoks.len() >= 2 {
            let m = ttoks.len() - 1;
            proof {
                assert(prev + chain_pairs(tviews).take(0) =~~= prev);
            }
            let mut pj: usize = 0;
            while pj < m
                invariant
                    tviews == str_views(ttoks@),
                    m == ttoks@.len() - 1,
                    ttoks@.len() >= 2,
                    pj <= m,
                    pattern_views(out@) == prev + chain_pairs(tviews).take(pj as int),
                decreases m - pj,
            {
                let a = ttoks[pj].clone();
                let b = ttoks[pj + 1].clone();
                let ghost av = a@;
                let ghost bv = b@;
                let ghost out_old = out@;
                out.push((a, b));
                pj = pj + 1;
                proof {
                    let pj1 = pj as int;
                    let cp = chain_pairs(tviews);
                    assert(av == tviews[pj1 - 1]);
                    assert(bv == tviews[pj1]);
                    assert(cp.len() == tviews.len() - 1);
                    assert(pattern_views(out_old).len() == out_old.len());
                    assert(prev.len() + pj1 - 1 == out_old.len());
                    assert forall|k: int| 0 <= k < out@.len() implies pattern_views(out@)[k] == (
                    prev + cp.take(pj1))[k] by {
                        assert(pattern_views(out@)[k] == (out@[k].0@, out@[k].1@));
                        if k < out_old.len() {
                            assert(out@[k] == out_old[k]);
                            assert(pattern_views(out_old)[k] == (out_old[k].0@, out_old[k].1@));
                            assert((prev + cp.take(pj1 - 1))[k] == pattern_views(out_old)[k]);
                            if k >= prev.len() {
                                assert((prev + cp.take(pj1 - 1))[k] == cp.take(pj1 - 1)[k
                                    - prev.len()]);
                                assert(cp.take(pj1 - 1)[k - prev.len()] == cp[k - prev.len()]);
                                assert((prev + cp.take(pj1))[k] == cp.take(pj1)[k - prev.len()]);
                                assert(cp.take(pj1)[k - prev.len()] == cp[k - prev.len()]);
                            } else {
                                assert((prev + cp.take(pj1 - 1))[k] == prev[k]);
                                assert((prev + cp.take(pj1))[k] == prev[k]);
                            }
                        } else {
                            assert(out@[k].0@ == av && out@[k].1@ == bv);
                            assert((prev + cp.take(pj1))[k] == cp.take(pj1)[k - prev.len()]);
                            assert(cp.take(pj1)[k - prev.len()] == cp[pj1 - 1]);
                            assert(cp[pj1 - 1] == (tviews[pj1 - 1], tviews[pj1]));
                        }
                    }
                    assert(pattern_views(out@).len() == (prev + cp.take(pj1)).len());
                    assert(pattern_views(out@) =~= prev + cp.take(pj1));
                }
            }
            proof {
                assert(chain_pairs(tviews).take(m as int) =~= chain_pairs(tviews));
            }
        } else {
            proof {
                assert(chain_pairs(tviews) =~~= Seq::<(Seq<char>, Seq<char>)>::empty());
                assert(pattern_views(out@) =~~= prev + chain_pairs(tviews));
            }
        }
        ci = ci + 1;
        proof {
            assert(pattern_views(out@) =~~= prev + pairs_of_chain(cviews[ci as int - 1]));
            assert(cviews.skip(ci as int - 1).skip(1) =~= cviews.skip(ci as int));
            assert(cviews.skip(ci as int - 1)[0] == cviews[ci as int - 1]);
        }
    }
    proof {
        assert(cviews.skip(ci as int) =~= Seq::<Seq<char>>::empty());
        assert(pattern_views(out@) + Seq::<(Seq<char>, Seq<char>)>::empty() =~~= pattern_views(
            out@,
        ));
    }
    out
}

} // verus!
