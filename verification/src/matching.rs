//! Matching one parsed pattern against a concrete path.
//!
//! Matching is deterministic: a literal must reproduce the path text
//! exactly, a parameter consumes one non-empty segment (up to the next `/`
//! or the end), and an unnamed parameter standing last — the trailing
//! wildcard — consumes the whole remainder, separators included.  Each
//! position of the path is therefore consumed in one of three modes
//! (literal, parameter, wildcard); the mode word of a match, compared
//! lexicographically, is what decides precedence between patterns.
use vstd::prelude::*;
use vstd::string::*;

use crate::pattern::Piece;
use crate::pattern::Position;
use crate::pattern::pos_name;
use crate::pattern::pieces_agree;
use crate::pattern::names_from;
use crate::pattern::seg_end;
use crate::pattern::seg_scan;

verus! {

/// The mode in which a path position is consumed: literal text.
pub const MODE_LIT: u8 = 0;

/// The mode in which a path position is consumed: a single-segment
/// parameter.
pub const MODE_PARAM: u8 = 1;

/// The mode in which a path position is consumed: the trailing wildcard.
pub const MODE_WILD: u8 = 2;

/// Holds when piece `i` is the trailing wildcard: an unnamed parameter
/// standing last.  An unnamed parameter anywhere else behaves like a
/// single-segment parameter.
pub open spec fn is_wild_at(ps: Seq<Piece>, i: int) -> bool {
    i == ps.len() - 1 && (ps[i] matches Piece::Parameter(Position::Indexed(_, _)))
}

/// Holds when the pieces from `i` on match the path text from `j` on,
/// consuming it entirely.
pub open spec fn matches_from(ps: Seq<Piece>, i: int, p: Seq<char>, j: int) -> bool
    decreases ps.len() - i,
{
    if i < 0 || i >= ps.len() {
        j == p.len()
    } else {
        match ps[i] {
            Piece::Literal(t) => {
                &&& 0 <= j
                &&& j + t@.len() <= p.len()
                &&& p.subrange(j, j + t@.len()) == t@
                &&& matches_from(ps, i + 1, p, j + t@.len())
            },
            Piece::Parameter(_) => {
                if is_wild_at(ps, i) {
                    0 <= j <= p.len()
                } else {
                    &&& 0 <= j
                    &&& seg_end(p, j) > j
                    &&& matches_from(ps, i + 1, p, seg_end(p, j))
                }
            },
        }
    }
}

/// Holds when a whole pattern matches a whole path.
pub open spec fn pattern_matches(ps: Seq<Piece>, p: Seq<char>) -> bool {
    matches_from(ps, 0, p, 0)
}

/// The bindings produced by a match: one (name, captured text) pair per
/// parameter, in pattern order.  A single-segment parameter captures its
/// segment; the trailing wildcard captures the remainder.
pub open spec fn captures_from(ps: Seq<Piece>, i: int, p: Seq<char>, j: int) -> Seq<
    (Seq<char>, Seq<char>),
>
    decreases ps.len() - i,
{
    if i < 0 || i >= ps.len() {
        Seq::empty()
    } else {
        match ps[i] {
            Piece::Literal(t) => captures_from(ps, i + 1, p, j + t@.len()),
            Piece::Parameter(pos) => {
                if is_wild_at(ps, i) {
                    seq![(pos_name(pos), p.subrange(j, p.len() as int))]
                } else {
                    seq![(pos_name(pos), p.subrange(j, seg_end(p, j)))].add(
                        captures_from(ps, i + 1, p, seg_end(p, j)),
                    )
                }
            },
        }
    }
}

/// The bindings of a whole match.
pub open spec fn pattern_captures(ps: Seq<Piece>, p: Seq<char>) -> Seq<(Seq<char>, Seq<char>)> {
    captures_from(ps, 0, p, 0)
}

/// The mode word of a match: for every path position from `j` on, the
/// mode in which it is consumed, with one trailing entry for the end of
/// the path (wildcard if the wildcard is still open there, literal
/// otherwise).  Comparing mode words lexicographically realizes the
/// precedence rule: literal text beats a parameter beats the wildcard, at
/// the first position where two matching patterns differ.
pub open spec fn modes_from(ps: Seq<Piece>, i: int, p: Seq<char>, j: int) -> Seq<int>
    decreases ps.len() - i,
{
    if i < 0 || i >= ps.len() {
        seq![MODE_LIT as int]
    } else {
        match ps[i] {
            Piece::Literal(t) => Seq::new(t@.len(), |q: int| MODE_LIT as int).add(
                modes_from(ps, i + 1, p, j + t@.len()),
            ),
            Piece::Parameter(_) => {
                if is_wild_at(ps, i) {
                    Seq::new((p.len() - j) as nat, |q: int| MODE_WILD as int).push(MODE_WILD as int)
                } else {
                    Seq::new((seg_end(p, j) - j) as nat, |q: int| MODE_PARAM as int).add(
                        modes_from(ps, i + 1, p, seg_end(p, j)),
                    )
                }
            },
        }
    }
}

/// The mode word of a whole match.
pub open spec fn pattern_modes(ps: Seq<Piece>, p: Seq<char>) -> Seq<int> {
    modes_from(ps, 0, p, 0)
}

/// Strict lexicographic order on mode words; a shorter word that is a
/// prefix of a longer one comes first.
pub open spec fn lex_lt(a: Seq<int>, b: Seq<int>) -> bool
    decreases a.len(),
{
    if a.len() == 0 {
        b.len() > 0
    } else if b.len() == 0 {
        false
    } else if a[0] != b[0] {
        a[0] < b[0]
    } else {
        lex_lt(a.drop_first(), b.drop_first())
    }
}

/// The views of a vector of bindings.
pub open spec fn bind_views(v: Seq<(String, String)>) -> Seq<(Seq<char>, Seq<char>)> {
    v.map_values(|pr: (String, String)| (pr.0@, pr.1@))
}

/// The view of a vector of modes.
pub open spec fn mode_views(v: Seq<u8>) -> Seq<int> {
    v.map_values(|m: u8| m as int)
}

/// The name a parameter position binds.
pub fn pos_name_exec(p: &Position) -> (r: String)
    ensures
        r@ == pos_name(*p),
{
    match p {
        Position::Named(n) => n.clone(),
        Position::Indexed(_, n) => n.clone(),
    }
}

/// Appends `count` copies of one mode.
fn push_mode_run(modes: &mut Vec<u8>, m: u8, count: usize)
    ensures
        final(modes)@ == old(modes)@.add(Seq::new(count as nat, |q: int| m)),
{
    let mut k: usize = 0;
    while k < count
        invariant
            k <= count,
            modes@ == old(modes)@.add(Seq::new(k as nat, |q: int| m)),
        decreases count - k,
    {
        modes.push(m);
        proof {
            assert(modes@ =~= old(modes)@.add(Seq::new((k + 1) as nat, |q: int| m)));
        }
        k = k + 1;
    }
    proof {
        assert(modes@ =~= old(modes)@.add(Seq::new(count as nat, |q: int| m)));
    }
}

/// Decides whether the literal text `t` stands verbatim in the path at
/// position `j`.
fn literal_matches(path: &str, j: usize, t: &str) -> (r: bool)
    requires
        j <= path@.len(),
    ensures
        r == (j + t@.len() <= path@.len() && path@.subrange(j as int, j + t@.len()) == t@),
{
    let n = path.unicode_len();
    let tl = t.unicode_len();
    if tl > n - j {
        return false;
    }
    let mut k: usize = 0;
    while k < tl
        invariant
            k <= tl,
            j + tl <= n,
            n == path@.len(),
            tl == t@.len(),
            forall|q: int| 0 <= q < k ==> path@[j + q] == t@[q],
        decreases tl - k,
    {
        if path.get_char(j + k) != t.get_char(k) {
            proof {
                assert(path@.subrange(j as int, j + t@.len()) != t@) by {
                    if path@.subrange(j as int, j + t@.len()) == t@ {
                        assert(path@.subrange(j as int, j + t@.len())[k as int] == t@[k as int]);
                        assert(path@[j + k] == t@[k as int]);
                    }
                }
            }
            return false;
        }
        k = k + 1;
    }
    proof {
        assert(path@.subrange(j as int, j + t@.len()) =~= t@);
    }
    true
}

/// Matches one pattern against a path.  Returns the bindings and the mode
/// word of the match, or nothing when the pattern does not match.
pub fn match_pattern(ps: &Vec<Piece>, path: &str) -> (r: Option<(Vec<(String, String)>, Vec<u8>)>)
    ensures
        r is Some <==> pattern_matches(ps@, path@),
        r matches Some(bm) ==> bind_views(bm.0@) == pattern_captures(ps@, path@) && mode_views(
            bm.1@,
        ) == pattern_modes(ps@, path@),
{
    let n = path.unicode_len();
    let mut i: usize = 0;
    let mut j: usize = 0;
    let mut binds: Vec<(String, String)> = Vec::new();
    let mut modes: Vec<u8> = Vec::new();
    loop
        invariant
            i <= ps@.len(),
            j <= n,
            n == path@.len(),
            pattern_matches(ps@, path@) == matches_from(ps@, i as int, path@, j as int),
            matches_from(ps@, i as int, path@, j as int) ==> {
                &&& pattern_captures(ps@, path@) == bind_views(binds@).add(
                    captures_from(ps@, i as int, path@, j as int),
                )
                &&& pattern_modes(ps@, path@) == mode_views(modes@).add(
                    modes_from(ps@, i as int, path@, j as int),
                )
            },
        decreases ps@.len() - i,
    {
        if i == ps.len() {
            if j == n {
                modes.push(MODE_LIT);
                proof {
                    assert(mode_views(modes@) =~= pattern_modes(ps@, path@));
                    assert(bind_views(binds@) =~= pattern_captures(ps@, path@));
                }
                return Some((binds, modes));
            } else {
                return None;
            }
        }
        let ghost pre_binds = binds@;
        let ghost pre_modes = modes@;
        let piece = &ps[i];
        match piece {
            Piece::Literal(t) => {
                let tl = t.as_str().unicode_len();
                if !literal_matches(path, j, t.as_str()) {
                    return None;
                }
                push_mode_run(&mut modes, MODE_LIT, tl);
                proof {
                    if matches_from(ps@, i as int + 1, path@, j + tl) {
                        assert(mode_views(modes@).add(
                            modes_from(ps@, i as int + 1, path@, j + tl),
                        ) =~= mode_views(pre_modes).add(modes_from(ps@, i as int, path@, j as int)));
                    }
                }
                i = i + 1;
                j = j + tl;
            },
            Piece::Parameter(pos) => {
                let isw = i + 1 == ps.len() && (match pos {
                    Position::Indexed(_, _) => true,
                    Position::Named(_) => false,
                });
                proof {
                    assert(isw == is_wild_at(ps@, i as int));
                }
                if isw {
                    let val = path.substring_char(j, n).to_owned();
                    let nm = pos_name_exec(pos);
                    binds.push((nm, val));
                    push_mode_run(&mut modes, MODE_WILD, n - j);
                    modes.push(MODE_WILD);
                    proof {
                        assert(bind_views(binds@) =~= pattern_captures(ps@, path@));
                        assert(mode_views(modes@) =~= pattern_modes(ps@, path@));
                    }
                    return Some((binds, modes));
                } else {
                    let e = seg_scan(path, j);
                    if e == j {
                        return None;
                    }
                    let val = path.substring_char(j, e).to_owned();
                    let nm = pos_name_exec(pos);
                    binds.push((nm, val));
                    push_mode_run(&mut modes, MODE_PARAM, e - j);
                    proof {
                        if matches_from(ps@, i as int + 1, path@, e as int) {
                            assert(bind_views(binds@).add(
                                captures_from(ps@, i as int + 1, path@, e as int),
                            ) =~= bind_views(pre_binds).add(
                                captures_from(ps@, i as int, path@, j as int),
                            ));
                            assert(mode_views(modes@).add(
                                modes_from(ps@, i as int + 1, path@, e as int),
                            ) =~= mode_views(pre_modes).add(
                                modes_from(ps@, i as int, path@, j as int),
                            ));
                        }
                    }
                    i = i + 1;
                    j = e;
                }
            },
        }
    }
}

/// Decides the strict precedence order between two mode words.
pub fn lex_less(a: &Vec<u8>, b: &Vec<u8>) -> (r: bool)
    ensures
        r == lex_lt(mode_views(a@), mode_views(b@)),
{
    let mut i: usize = 0;
    proof {
        assert(mode_views(a@).skip(0) =~= mode_views(a@));
        assert(mode_views(b@).skip(0) =~= mode_views(b@));
    }
    loop
        invariant
            i <= a@.len(),
            i <= b@.len(),
            lex_lt(mode_views(a@), mode_views(b@)) == lex_lt(
                mode_views(a@).skip(i as int),
                mode_views(b@).skip(i as int),
            ),
        decreases a@.len() - i,
    {
        if i >= a.len() {
            return i < b.len();
        }
        if i >= b.len() {
            return false;
        }
        let x = a[i];
        let y = b[i];
        proof {
            assert(mode_views(a@).skip(i as int)[0] == x as int);
            assert(mode_views(b@).skip(i as int)[0] == y as int);
        }
        if x != y {
            return x < y;
        }
        proof {
            assert(mode_views(a@).skip(i as int).drop_first() =~= mode_views(a@).skip(
                i as int + 1,
            ));
            assert(mode_views(b@).skip(i as int).drop_first() =~= mode_views(b@).skip(
                i as int + 1,
            ));
        }
        i = i + 1;
    }
}

/// Precedence is transitive.
pub proof fn lemma_lex_trans(a: Seq<int>, b: Seq<int>, c: Seq<int>)
    requires
        lex_lt(a, b),
        lex_lt(b, c),
    ensures
        lex_lt(a, c),
    decreases a.len(),
{
    if a.len() == 0 {
        assert(b.len() > 0);
        assert(c.len() > 0);
    } else {
        assert(b.len() > 0);
        assert(c.len() > 0);
        if a[0] == b[0] && b[0] == c[0] {
            lemma_lex_trans(a.drop_first(), b.drop_first(), c.drop_first());
        }
    }
}

/// Two mode words of equal length are ordered one way or the other, or
/// equal.
pub proof fn lemma_lex_connex(a: Seq<int>, b: Seq<int>)
    requires
        a.len() == b.len(),
    ensures
        lex_lt(a, b) || lex_lt(b, a) || a == b,
    decreases a.len(),
{
    if a.len() == 0 {
        assert(a =~= b);
    } else if a[0] == b[0] {
        lemma_lex_connex(a.drop_first(), b.drop_first());
        if !lex_lt(a, b) && !lex_lt(b, a) {
            assert(a.drop_first() == b.drop_first());
            assert forall|q: int| 0 <= q < a.len() implies a[q] == b[q] by {
                if q > 0 {
                    assert(a.drop_first()[q - 1] == b.drop_first()[q - 1]);
                }
            }
            assert(a =~= b);
        }
    }
}

/// A match consumes the whole path: its mode word covers every path
/// position from `j` on, plus the entry for the end.
pub proof fn lemma_modes_len(ps: Seq<Piece>, i: int, p: Seq<char>, j: int)
    requires
        0 <= i,
        matches_from(ps, i, p, j),
    ensures
        0 <= j <= p.len(),
        modes_from(ps, i, p, j).len() == p.len() - j + 1,
    decreases ps.len() - i,
{
    if i >= ps.len() {
    } else {
        match ps[i] {
            Piece::Literal(t) => {
                lemma_modes_len(ps, i + 1, p, j + t@.len());
            },
            Piece::Parameter(_) => {
                if is_wild_at(ps, i) {
                } else {
                    lemma_modes_len(ps, i + 1, p, seg_end(p, j));
                }
            },
        }
    }
}

/// Agreeing piece sequences — such as any two parses of one pattern
/// string — match the same paths, with the same bindings and the same
/// mode word.
pub proof fn lemma_agree_matching(a: Seq<Piece>, b: Seq<Piece>, p: Seq<char>, i: int, j: int)
    requires
        0 <= i,
        a.len() == b.len(),
        forall|q: int| 0 <= q < a.len() ==> #[trigger] pieces_agree(a[q], b[q]),
    ensures
        matches_from(a, i, p, j) == matches_from(b, i, p, j),
        captures_from(a, i, p, j) == captures_from(b, i, p, j),
        modes_from(a, i, p, j) == modes_from(b, i, p, j),
    decreases a.len() - i,
{
    if i < a.len() {
        assert(pieces_agree(a[i], b[i]));
        assert(is_wild_at(a, i) == is_wild_at(b, i));
        match a[i] {
            Piece::Literal(t) => {
                lemma_agree_matching(a, b, p, i + 1, j + t@.len());
            },
            Piece::Parameter(_) => {
                lemma_agree_matching(a, b, p, i + 1, seg_end(p, j));
            },
        }
        assert(captures_from(a, i, p, j) =~= captures_from(b, i, p, j));
        assert(modes_from(a, i, p, j) =~= modes_from(b, i, p, j));
    }
}

/// The names of the bindings of a match are exactly the pattern's
/// parameter names, in pattern order.
pub proof fn lemma_capture_names(ps: Seq<Piece>, i: int, p: Seq<char>, j: int)
    requires
        0 <= i,
        matches_from(ps, i, p, j),
    ensures
        captures_from(ps, i, p, j).map_values(|c: (Seq<char>, Seq<char>)| c.0) == names_from(
            ps,
            i,
        ),
    decreases ps.len() - i,
{
    if i >= ps.len() {
        assert(captures_from(ps, i, p, j).map_values(|c: (Seq<char>, Seq<char>)| c.0)
            =~= names_from(ps, i));
    } else {
        match ps[i] {
            Piece::Literal(t) => {
                lemma_capture_names(ps, i + 1, p, j + t@.len());
                assert(captures_from(ps, i, p, j).map_values(|c: (Seq<char>, Seq<char>)| c.0)
                    =~= names_from(ps, i));
            },
            Piece::Parameter(pos) => {
                if is_wild_at(ps, i) {
                    assert(i + 1 >= ps.len());
                    assert(names_from(ps, i + 1) == Seq::<Seq<char>>::empty());
                    assert(captures_from(ps, i, p, j) == seq![
                        (pos_name(pos), p.subrange(j, p.len() as int)),
                    ]);
                    assert(captures_from(ps, i, p, j).map_values(
                        |c: (Seq<char>, Seq<char>)| c.0,
                    ) =~= names_from(ps, i));
                } else {
                    lemma_capture_names(ps, i + 1, p, seg_end(p, j));
                    assert(captures_from(ps, i, p, j).map_values(
                        |c: (Seq<char>, Seq<char>)| c.0,
                    ) =~= names_from(ps, i));
                }
            },
        }
    }
}

} // verus!
