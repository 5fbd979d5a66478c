//! Pattern text and its parsed form.
//!
//! A pattern string is cut at `/` separators into tokens.  A token that
//! begins with `:` is a named parameter; a token that is exactly `*` is an
//! unnamed parameter whose name is synthesized from its ordinal among the
//! unnamed parameters of the pattern (`"0"`, `"1"`, ...).  Every other run
//! of text, separators included, accumulates into literal pieces.  A named
//! parameter with an empty name is rejected with the offset of its `:`.
use vstd::prelude::*;
use vstd::string::*;

verus! {

/// How a parameter was written down: by name (`:name`), or as the
/// `*` wildcard, carrying its ordinal and the name synthesized from it.
#[derive(Debug)]
pub enum Position {
    Named(String),
    Indexed(usize, String),
}

/// One parsed token of a pattern: literal text matched exactly, or a
/// parameter that captures path text.
#[derive(Debug)]
pub enum Piece {
    Literal(String),
    Parameter(Position),
}

/// The error for a pattern whose syntax is invalid: `offset` is the
/// position of the offending `:`, counted in characters (Unicode scalar
/// values) from the start of the pattern — the unit every offset in this
/// library uses.  For an ASCII pattern it is also the byte offset.
#[derive(Debug, Clone, Copy, PartialEq, Eq, Structural)]
pub struct MalformedPattern {
    pub offset: usize,
}

impl Clone for Position {
    fn clone(&self) -> (r: Self)
        ensures
            r == *self,
    {
        match self {
            Position::Named(n) => Position::Named(n.clone()),
            Position::Indexed(ix, n) => Position::Indexed(*ix, n.clone()),
        }
    }
}

impl Clone for Piece {
    fn clone(&self) -> (r: Self)
        ensures
            r == *self,
    {
        match self {
            Piece::Literal(t) => Piece::Literal(t.clone()),
            Piece::Parameter(p) => Piece::Parameter(p.clone()),
        }
    }
}

/// The name bound by a parameter position.
pub open spec fn pos_name(p: Position) -> Seq<char> {
    match p {
        Position::Named(n) => n@,
        Position::Indexed(_, n) => n@,
    }
}

/// The name bound by a piece; empty for a literal.
pub open spec fn piece_name(p: Piece) -> Seq<char> {
    match p {
        Piece::Literal(_) => Seq::empty(),
        Piece::Parameter(pos) => pos_name(pos),
    }
}

/// The character for one decimal digit.
pub open spec fn digit_char(d: nat) -> char {
    if d == 0 {
        '0'
    } else if d == 1 {
        '1'
    } else if d == 2 {
        '2'
    } else if d == 3 {
        '3'
    } else if d == 4 {
        '4'
    } else if d == 5 {
        '5'
    } else if d == 6 {
        '6'
    } else if d == 7 {
        '7'
    } else if d == 8 {
        '8'
    } else {
        '9'
    }
}

/// The decimal rendering of a number, most significant digit first.
pub open spec fn dec_digits(n: nat) -> Seq<char>
    decreases n,
{
    if n < 10 {
        seq![digit_char(n)]
    } else {
        dec_digits(n / 10).push(digit_char(n % 10))
    }
}

/// Relies on `String::push` from std: appends exactly one character at the
/// end of the string.
#[verifier::external_body]
pub(crate) fn push_char(s: &mut String, c: char)
    ensures
        final(s)@ == old(s)@.push(c),
{
    s.push(c);
}

fn digit_to_char(d: usize) -> (c: char)
    requires
        d < 10,
    ensures
        c == digit_char(d as nat),
{
    if d == 0 {
        '0'
    } else if d == 1 {
        '1'
    } else if d == 2 {
        '2'
    } else if d == 3 {
        '3'
    } else if d == 4 {
        '4'
    } else if d == 5 {
        '5'
    } else if d == 6 {
        '6'
    } else if d == 7 {
        '7'
    } else if d == 8 {
        '8'
    } else {
        '9'
    }
}

/// Renders a number in decimal, for the synthesized names of unnamed
/// parameters.
pub fn usize_to_string(n: usize) -> (r: String)
    ensures
        r@ == dec_digits(n as nat),
    decreases n,
{
    if n < 10 {
        let mut s = String::new();
        push_char(&mut s, digit_to_char(n));
        proof {
            assert(s@ =~= dec_digits(n as nat));
        }
        s
    } else {
        let mut s = usize_to_string(n / 10);
        push_char(&mut s, digit_to_char(n % 10));
        proof {
            assert(s@ =~= dec_digits(n as nat));
        }
        s
    }
}

/// The position of the next `/` at or after `j`, or the end of the text.
pub open spec fn seg_end(s: Seq<char>, j: int) -> int
    decreases s.len() - j,
{
    if j < 0 {
        j
    } else if j >= s.len() {
        s.len() as int
    } else if s[j] == '/' {
        j
    } else {
        seg_end(s, j + 1)
    }
}

pub proof fn lemma_seg_end(s: Seq<char>, j: int)
    requires
        0 <= j <= s.len(),
    ensures
        j <= seg_end(s, j) <= s.len(),
        forall|k: int| j <= k < seg_end(s, j) ==> s[k] != '/',
        seg_end(s, j) < s.len() ==> s[seg_end(s, j)] == '/',
    decreases s.len() - j,
{
    if j < s.len() && s[j] != '/' {
        lemma_seg_end(s, j + 1);
    }
}

/// Finds the end of the token that starts at `from`: the next `/` or the
/// end of the text.
pub fn seg_scan(s: &str, from: usize) -> (e: usize)
    requires
        from <= s@.len(),
    ensures
        e as int == seg_end(s@, from as int),
        from <= e <= s@.len(),
{
    let n = s.unicode_len();
    let mut e = from;
    loop
        invariant
            from <= e <= n,
            n == s@.len(),
            seg_end(s@, from as int) == seg_end(s@, e as int),
        decreases n - e,
    {
        if e >= n {
            return e;
        }
        if s.get_char(e) == '/' {
            return e;
        }
        e = e + 1;
    }
}

/// The text that one piece contributes to its pattern string: literal
/// text verbatim, `:` followed by the name for a named parameter, `*` for
/// an unnamed one.
pub open spec fn piece_text(p: Piece) -> Seq<char> {
    match p {
        Piece::Literal(t) => t@,
        Piece::Parameter(Position::Named(n)) => seq![':'].add(n@),
        Piece::Parameter(Position::Indexed(_, _)) => seq!['*'],
    }
}

/// The pattern text spelled by the pieces from index `i` on.
pub open spec fn flat_from(ps: Seq<Piece>, i: int) -> Seq<char>
    decreases ps.len() - i,
{
    if i < 0 || i >= ps.len() {
        Seq::empty()
    } else {
        piece_text(ps[i]).add(flat_from(ps, i + 1))
    }
}

/// The pattern text spelled by a whole piece sequence.  Parsing a pattern
/// and flattening the pieces reproduces the pattern string.
pub open spec fn flat(ps: Seq<Piece>) -> Seq<char> {
    flat_from(ps, 0)
}

pub proof fn lemma_flat_push(ps: Seq<Piece>, p: Piece, i: int)
    requires
        0 <= i <= ps.len(),
    ensures
        flat_from(ps.push(p), i) == flat_from(ps, i).add(piece_text(p)),
    decreases ps.len() - i,
{
    if i == ps.len() {
        assert(flat_from(ps.push(p), i + 1) =~= Seq::empty());
        assert(flat_from(ps, i) =~= Seq::empty());
        assert(flat_from(ps.push(p), i) =~= piece_text(p));
        assert(flat_from(ps, i).add(piece_text(p)) =~= piece_text(p));
    } else {
        lemma_flat_push(ps, p, i + 1);
        assert(ps.push(p)[i] == ps[i]);
        assert(flat_from(ps.push(p), i) =~= flat_from(ps, i).add(piece_text(p)));
    }
}

/// The parameter names declared by the pieces from index `i` on, left to
/// right.
pub open spec fn names_from(ps: Seq<Piece>, i: int) -> Seq<Seq<char>>
    decreases ps.len() - i,
{
    if i < 0 || i >= ps.len() {
        Seq::empty()
    } else {
        match ps[i] {
            Piece::Literal(_) => names_from(ps, i + 1),
            Piece::Parameter(pos) => seq![pos_name(pos)].add(names_from(ps, i + 1)),
        }
    }
}

/// The parameter names of a pattern, in the order they appear.
pub open spec fn param_names(ps: Seq<Piece>) -> Seq<Seq<char>> {
    names_from(ps, 0)
}

/// How many unnamed parameters stand before index `i`.
pub open spec fn indexed_before(ps: Seq<Piece>, i: int) -> nat
    decreases i,
{
    if i <= 0 {
        0
    } else {
        indexed_before(ps, i - 1) + (match ps[i - 1] {
            Piece::Parameter(Position::Indexed(_, _)) => 1nat,
            _ => 0nat,
        })
    }
}

pub proof fn lemma_indexed_before_push(ps: Seq<Piece>, p: Piece, i: int)
    requires
        i <= ps.len(),
    ensures
        indexed_before(ps.push(p), i) == indexed_before(ps, i),
    decreases i,
{
    if i > 0 {
        lemma_indexed_before_push(ps, p, i - 1);
    }
}

/// Holds when no parameter token starts at position `k` of the text: the
/// token there (if one starts there) neither begins with `:` nor is a lone
/// `*`.
pub open spec fn plain_token_at(s: Seq<char>, k: int) -> bool {
    (k == 0 || s[k - 1] == '/') ==> (s[k] != ':' && !(s[k] == '*' && (k + 1 == s.len() || s[k
        + 1] == '/')))
}

/// A literal piece is canonical when none of its complete tokens could
/// have parsed as a parameter.
pub open spec fn canonical_lit(t: Seq<char>) -> bool {
    forall|k: int| 0 <= k < t.len() ==> #[trigger] plain_token_at(t, k)
}

/// Well-formedness of one piece within its sequence: literals are
/// non-empty, coalesced and canonical; parameter names are non-empty and
/// free of separators; a parameter is preceded and followed by literals
/// that touch it with a `/`; an unnamed parameter carries its ordinal and
/// the name spelled from it.
pub open spec fn wf_at(ps: Seq<Piece>, i: int) -> bool {
    match ps[i] {
        Piece::Literal(t) => {
            &&& t@.len() > 0
            &&& canonical_lit(t@)
            &&& (i + 1 < ps.len() ==> !(ps[i + 1] is Literal))
            &&& (i + 1 < ps.len() && ps[i + 1] is Parameter ==> t@[t@.len() - 1] == '/')
        },
        Piece::Parameter(p) => {
            &&& pos_name(p).len() > 0
            &&& (forall|k: int| 0 <= k < pos_name(p).len() ==> #[trigger] pos_name(p)[k] != '/')
            &&& (i + 1 < ps.len() ==> match ps[i + 1] {
                Piece::Literal(t2) => t2@.len() > 0 && t2@[0] == '/',
                Piece::Parameter(_) => false,
            })
            &&& (match p {
                Position::Indexed(ix, nm) => ix as nat == indexed_before(ps, i) && nm@
                    == dec_digits(ix as nat),
                Position::Named(_) => true,
            })
        },
    }
}

/// Well-formedness of a parsed pattern.
pub open spec fn wf_pieces(ps: Seq<Piece>) -> bool {
    forall|i: int| 0 <= i < ps.len() ==> #[trigger] wf_at(ps, i)
}

/// Holds when the token starting at `k` is a `:` with an empty name — the
/// one malformed pattern.
pub open spec fn bad_colon_at(s: Seq<char>, k: int) -> bool {
    &&& 0 <= k < s.len()
    &&& s[k] == ':'
    &&& (k == 0 || s[k - 1] == '/')
    &&& (k + 1 == s.len() || s[k + 1] == '/')
}

/// Holds when the pattern text contains a parameter with an empty name.
pub open spec fn has_bad_token(s: Seq<char>) -> bool {
    exists|k: int| #[trigger] bad_colon_at(s, k)
}

/// Holds when parsing fails exactly at offset `k`: the first empty-named
/// parameter starts there.
pub open spec fn parse_fails_at(s: Seq<char>, k: int) -> bool {
    &&& bad_colon_at(s, k)
    &&& forall|k2: int| 0 <= k2 < k ==> !#[trigger] bad_colon_at(s, k2)
}

/// The relation between a pattern string and its parsed pieces: the
/// pieces spell the string back and are well-formed.
pub open spec fn parsed_ok(s: Seq<char>, ps: Seq<Piece>) -> bool {
    &&& flat(ps) == s
    &&& wf_pieces(ps)
}

/// Every piece spells at least one character.
pub proof fn lemma_flat_len(ps: Seq<Piece>, i: int)
    requires
        0 <= i,
        wf_pieces(ps),
    ensures
        flat_from(ps, i).len() >= ps.len() - i,
    decreases ps.len() - i,
{
    if i < ps.len() {
        assert(wf_at(ps, i));
        lemma_flat_len(ps, i + 1);
    }
}

/// The empty pattern parses to no pieces at all: it denotes the root and
/// matches only the empty path.
pub proof fn lemma_empty_pattern(ps: Seq<Piece>)
    requires
        parsed_ok(Seq::empty(), ps),
    ensures
        ps.len() == 0,
{
    lemma_flat_len(ps, 0);
}

pub proof fn lemma_dec_digits(n: nat)
    ensures
        dec_digits(n).len() >= 1,
        forall|k: int| 0 <= k < dec_digits(n).len() ==> dec_digits(n)[k] != '/',
    decreases n,
{
    if n >= 10 {
        lemma_dec_digits(n / 10);
    }
}

/// Closes the pending literal run `pattern[lit_start..pos]` into a
/// `Literal` piece, if it is non-empty.
fn flush_literal(pieces: &mut Vec<Piece>, pattern: &str, lit_start: usize, pos: usize)
    requires
        lit_start <= pos <= pattern@.len(),
        flat(old(pieces)@) == pattern@.take(lit_start as int),
        wf_pieces(old(pieces)@),
        old(pieces)@.len() > 0 ==> (old(pieces)@.last() is Parameter && lit_start > 0),
        lit_start < pos ==> (lit_start == 0 || pattern@[lit_start as int] == '/'),
        lit_start < pos < pattern@.len() ==> pattern@[pos as int - 1] == '/',
        forall|k: int| lit_start <= k < pos ==> #[trigger] plain_token_at(pattern@, k),
    ensures
        flat(final(pieces)@) == pattern@.take(pos as int),
        wf_pieces(final(pieces)@),
        lit_start == pos ==> final(pieces)@ == old(pieces)@,
        lit_start < pos ==> {
            &&& final(pieces)@.len() == old(pieces)@.len() + 1
            &&& final(pieces)@.subrange(0, old(pieces)@.len() as int) == old(pieces)@
            &&& (final(pieces)@.last() matches Piece::Literal(t) && t@ == pattern@.subrange(
                lit_start as int,
                pos as int,
            ))
        },
        indexed_before(final(pieces)@, final(pieces)@.len() as int) == indexed_before(
            old(pieces)@,
            old(pieces)@.len() as int,
        ),
{
    if lit_start < pos {
        let t = pattern.substring_char(lit_start, pos).to_owned();
        proof {
            let s = pattern@;
            let a = lit_start as int;
            let b = pos as int;
            assert(t@ == s.subrange(a, b));
            assert forall|k: int| 0 <= k < t@.len() implies #[trigger] plain_token_at(t@, k) by {
                if k == 0 || t@[k - 1] == '/' {
                    if k == 0 && a != 0 {
                        assert(t@[0] == s[a]);
                        assert(s[a] == '/');
                    } else {
                        // position a + k starts a token of the whole pattern
                        assert(k == 0 ==> a == 0);
                        assert(k > 0 ==> s[a + k - 1] == '/');
                        assert(plain_token_at(s, a + k));
                        assert(t@[k] == s[a + k]);
                        assert(t@[k] != ':');
                        if t@[k] == '*' {
                            assert(a + k + 1 < s.len() && s[a + k + 1] != '/');
                            if k + 1 == b - a {
                                // the literal would end right after the star
                                if b < s.len() {
                                    assert(s[b - 1] == '/');
                                    assert(false);
                                } else {
                                    assert(false);
                                }
                            }
                            assert(t@[k + 1] == s[a + k + 1]);
                        }
                    }
                }
            }
            assert(canonical_lit(t@));
        }
        let ghost old_ps = pieces@;
        pieces.push(Piece::Literal(t));
        proof {
            let s = pattern@;
            let ps = pieces@;
            let ghost ln = old_ps.len() as int;
            lemma_flat_push(old_ps, ps.last(), 0);
            assert(flat(ps) =~= s.take(pos as int));
            lemma_indexed_before_push(old_ps, ps.last(), ln);
            assert forall|i: int| 0 <= i < ps.len() implies #[trigger] wf_at(ps, i) by {
                if i < ln {
                    assert(wf_at(old_ps, i));
                    lemma_indexed_before_push(old_ps, ps.last(), i);
                    if i + 1 < ln {
                        assert(ps[i] == old_ps[i] && ps[i + 1] == old_ps[i + 1]);
                    } else {
                        // the old last piece is a parameter, now followed by
                        // the new literal, which begins with the separator
                        assert(old_ps.last() is Parameter);
                        assert(lit_start > 0);
                        assert(s[lit_start as int] == '/');
                    }
                } else {
                    // the new literal itself: non-empty, canonical, last
                    assert(ps[i] == ps.last());
                }
            }
            assert(ps.subrange(0, ln) =~= old_ps);
        }
    } else {
        proof {
            assert(pattern@.take(lit_start as int) == pattern@.take(pos as int));
        }
    }
}

/// Parses a pattern string into its pieces.
///
/// On success the pieces spell the pattern back (`flat`), are well-formed
/// (`wf_pieces`), and unnamed parameters are numbered left to right.  The
/// one rejected form is a named parameter with an empty name; the error
/// carries the offset of the first offending `:`, in characters (see
/// `MalformedPattern`).
pub fn parse(pattern: &str) -> (r: Result<Vec<Piece>, MalformedPattern>)
    ensures
        match r {
            Ok(ps) => parsed_ok(pattern@, ps@) && !has_bad_token(pattern@),
            Err(e) => parse_fails_at(pattern@, e.offset as int) && has_bad_token(pattern@),
        },
{
    let n = pattern.unicode_len();
    let mut pieces: Vec<Piece> = Vec::new();
    let mut lit_start: usize = 0;
    let mut pos: usize = 0;
    let mut indexed: usize = 0;
    proof {
        assert(flat(pieces@) =~= pattern@.take(0));
    }
    loop
        invariant
            n == pattern@.len(),
            lit_start <= n,
            lit_start <= pos <= n,
            pos < n ==> (pos == 0 || pattern@[pos as int - 1] == '/'),
            pos < n && pieces@.len() > 0 ==> lit_start < pos,
            pieces@.len() > 0 ==> (pieces@.last() is Parameter && lit_start > 0),
            lit_start < pos ==> (lit_start == 0 || pattern@[lit_start as int] == '/'),
            flat(pieces@) == pattern@.take(lit_start as int),
            wf_pieces(pieces@),
            forall|k: int| lit_start <= k < pos ==> #[trigger] plain_token_at(pattern@, k),
            forall|k: int| 0 <= k < pos ==> !(#[trigger] bad_colon_at(pattern@, k)),
            indexed as nat == indexed_before(pieces@, pieces@.len() as int),
            indexed <= pieces@.len(),
        decreases n - pos,
    {
        if pos >= n {
            break ;
        }
        let e = seg_scan(pattern, pos);
        proof {
            lemma_seg_end(pattern@, pos as int);
        }
        let newpos = if e < n {
            e + 1
        } else {
            n
        };
        let is_named = e > pos && pattern.get_char(pos) == ':';
        let is_star = e == pos + 1 && pattern.get_char(pos) == '*';
        if is_named {
            if e == pos + 1 {
                proof {
                    assert(bad_colon_at(pattern@, pos as int));
                }
                return Err(MalformedPattern { offset: pos });
            }
            flush_literal(&mut pieces, pattern, lit_start, pos);
            let ghost flushed = pieces@;
            let name = pattern.substring_char(pos + 1, e).to_owned();
            pieces.push(Piece::Parameter(Position::Named(name)));
            proof {
                parse_param_step(pattern@, flushed, pieces@, lit_start as int, pos as int, e as int, indexed as nat);
            }
            lit_start = e;
            pos = newpos;
        } else if is_star {
            flush_literal(&mut pieces, pattern, lit_start, pos);
            let ghost flushed = pieces@;
            let name = usize_to_string(indexed);
            pieces.push(Piece::Parameter(Position::Indexed(indexed, name)));
            proof {
                parse_param_step(pattern@, flushed, pieces@, lit_start as int, pos as int, e as int, indexed as nat);
            }
            let grown = pieces.len();
            proof {
                assert(indexed < grown);
            }
            indexed = indexed + 1;
            lit_start = e;
            pos = newpos;
        } else {
            proof {
                let s = pattern@;
                let p = pos as int;
                let ee = e as int;
                assert forall|k: int| lit_start <= k < newpos implies #[trigger] plain_token_at(
                    s,
                    k,
                ) by {
                    if k >= p {
                        if k == p {
                            if p < ee {
                                assert(s[p] != ':');
                                assert(s[p] == '*' ==> !(p + 1 == s.len() || s[p + 1] == '/'));
                            } else {
                                assert(s[p] == '/');
                            }
                        } else if k < ee {
                            assert(s[k - 1] != '/');
                        } else {
                            assert(s[k] == '/');
                        }
                    }
                }
                assert forall|k: int| 0 <= k < newpos implies !(#[trigger] bad_colon_at(s, k)) by {
                    if k >= p {
                        if k == p {
                            assert(p < ee ==> s[p] != ':');
                            assert(p == ee ==> s[p] == '/');
                        } else if k < ee {
                            assert(s[k - 1] != '/');
                        } else {
                            assert(s[k] == '/');
                        }
                    }
                }
            }
            pos = newpos;
        }
    }
    flush_literal(&mut pieces, pattern, lit_start, n);
    proof {
        assert(pattern@.take(n as int) =~= pattern@);
        assert(!has_bad_token(pattern@)) by {
            if has_bad_token(pattern@) {
                let k = choose|k: int| bad_colon_at(pattern@, k);
                assert(!bad_colon_at(pattern@, k));
            }
        }
    }
    Ok(pieces)
}

/// The step that closes a parameter token: the new piece sequence still
/// spells the pattern, stays well-formed, and keeps the ordinal count.
proof fn parse_param_step(
    s: Seq<char>,
    flushed: Seq<Piece>,
    ps: Seq<Piece>,
    lit_start: int,
    pos: int,
    e: int,
    indexed: nat,
)
    requires
        0 <= lit_start <= pos <= e <= s.len(),
        e == seg_end(s, pos),
        pos < e,
        flat(flushed) == s.take(pos),
        wf_pieces(flushed),
        indexed == indexed_before(flushed, flushed.len() as int),
        // the flushed sequence either ends in a literal that reaches `pos`,
        // or is empty (then the parameter starts the pattern)
        flushed.len() > 0 ==> lit_start < pos,
        lit_start < pos ==> flushed.len() > 0 && (flushed.last() matches Piece::Literal(t) && t@
            == s.subrange(lit_start, pos)),
        pos > 0 ==> s[pos - 1] == '/',
        ps == flushed.push(ps.last()),
        ps.last() is Parameter,
        (ps.last() matches Piece::Parameter(Position::Named(nm)) ==> e > pos + 1 && s[pos] == ':'
            && nm@ == s.subrange(pos + 1, e)),
        (ps.last() matches Piece::Parameter(Position::Indexed(ix, nm)) ==> e == pos + 1 && s[pos]
            == '*' && ix as nat == indexed && nm@ == dec_digits(indexed)),
    ensures
        flat(ps) == s.take(e),
        wf_pieces(ps),
        indexed_before(ps, ps.len() as int) == indexed + (if ps.last() matches
            Piece::Parameter(Position::Indexed(_, _)) {
            1nat
        } else {
            0nat
        }),
{
    let ln = flushed.len() as int;
    lemma_flat_push(flushed, ps.last(), 0);
    lemma_seg_end(s, pos);
    match ps.last() {
        Piece::Parameter(Position::Named(nm)) => {
            assert(flat(ps) =~= s.take(e));
        },
        Piece::Parameter(Position::Indexed(ix, nm)) => {
            assert(flat(ps) =~= s.take(e));
        },
        Piece::Literal(_) => {
            assert(false);
        },
    }
    lemma_indexed_before_push(flushed, ps.last(), ln);
    assert forall|i: int| 0 <= i < ps.len() implies #[trigger] wf_at(ps, i) by {
        if i < ln {
            assert(wf_at(flushed, i));
            lemma_indexed_before_push(flushed, ps.last(), i);
            if i + 1 < ln {
                assert(ps[i] == flushed[i] && ps[i + 1] == flushed[i + 1]);
            } else {
                // the flushed literal, now followed by the parameter: it
                // ends with the separator before the token
                assert(flushed.last() matches Piece::Literal(t) && t@ == s.subrange(
                    lit_start,
                    pos,
                ));
                assert(pos > 0 && s[pos - 1] == '/');
            }
        } else {
            // the new parameter: non-empty name without separators
            assert(ps[i] == ps.last());
            match ps[i] {
                Piece::Parameter(Position::Named(nm)) => {
                    assert(nm@ == s.subrange(pos + 1, e));
                    assert(nm@.len() == e - pos - 1);
                    assert(nm@.len() > 0);
                    assert forall|k: int| 0 <= k < pos_name(Position::Named(nm)).len()
                        implies #[trigger] pos_name(Position::Named(nm))[k] != '/' by {
                        assert(nm@[k] == s[pos + 1 + k]);
                    }
                },
                Piece::Parameter(Position::Indexed(ix, nm)) => {
                    lemma_dec_digits(indexed);
                },
                Piece::Literal(_) => {
                    assert(false);
                },
            }
        }
    }
}

/// Pins `seg_end` down: a separator-free run ending at a separator or at
/// the end of the text.
proof fn lemma_seg_end_pin(s: Seq<char>, x: int, y: int)
    requires
        0 <= x <= y <= s.len(),
        forall|k: int| x <= k < y ==> s[k] != '/',
        y < s.len() ==> s[y] == '/',
    ensures
        seg_end(s, x) == y,
    decreases y - x,
{
    if x < y {
        lemma_seg_end_pin(s, x + 1, y);
    }
}

/// Splits a concatenation that spells a suffix of `s` into its two
/// spans.
proof fn lemma_concat_split(x: Seq<char>, y: Seq<char>, s: Seq<char>, o: int)
    requires
        0 <= o <= s.len(),
        x.add(y) == s.subrange(o, s.len() as int),
    ensures
        o + x.len() + y.len() == s.len(),
        x == s.subrange(o, o + x.len()),
        y == s.subrange(o + x.len(), s.len() as int),
{
    assert(x.add(y).len() == x.len() + y.len());
    assert(s.subrange(o, s.len() as int).len() == s.len() - o);
    assert(x.len() + y.len() == s.len() - o);
    assert forall|q: int| 0 <= q < x.len() implies x[q] == s[o + q] by {
        assert(x.add(y)[q] == x[q]);
        assert(s.subrange(o, s.len() as int)[q] == s[o + q]);
    }
    assert(x =~= s.subrange(o, o + x.len()));
    assert forall|q: int| 0 <= q < y.len() implies y[q] == s[o + x.len() + q] by {
        assert(x.add(y)[x.len() + q] == y[q]);
        assert(s.subrange(o, s.len() as int)[x.len() + q] == s[o + x.len() + q]);
    }
    assert(y =~= s.subrange(o + x.len(), s.len() as int));
}

/// Two literal pieces spelling the same spot of the same text cannot
/// have different lengths: the shorter one would put a parameter token
/// inside the longer, which canonicity forbids.
proof fn lemma_lit_shorter_absurd(s: Seq<char>, c: Seq<Piece>, i: int, o: int, tlong: Seq<char>)
    requires
        0 <= o,
        0 <= i < c.len(),
        wf_pieces(c),
        flat_from(c, i) == s.subrange(o, s.len() as int),
        c[i] is Literal,
        o + tlong.len() <= s.len(),
        tlong == s.subrange(o, o + tlong.len()),
        canonical_lit(tlong),
    ensures
        (c[i] matches Piece::Literal(t) ==> t@.len() >= tlong.len()),
{
    let tshort = match c[i] {
        Piece::Literal(t) => t@,
        Piece::Parameter(_) => Seq::empty(),
    };
    if tshort.len() < tlong.len() {
        let ra = flat_from(c, i + 1);
        lemma_concat_split(tshort, ra, s, o);
    let w = o + tshort.len();
    let k = tshort.len() as int;
    // the shorter literal's successor piece exists and is a parameter
    assert(ra.len() == s.len() - w);
    assert(ra.len() > 0);
    assert(i + 1 < c.len());
    assert(wf_at(c, i));
    assert(wf_at(c, i + 1));
    assert(c[i + 1] is Parameter);
    assert(tshort.len() > 0);
    assert(tshort[k - 1] == '/');
    assert(tlong[k - 1] == s[w - 1]);
    assert(tlong[k - 1] == tshort[k - 1]);
    assert(plain_token_at(tlong, k));
    match c[i + 1] {
        Piece::Parameter(p) => {
            let rb = flat_from(c, i + 2);
            match p {
                Position::Named(nm) => {
                    // a parameter token would start with ':' inside the
                    // longer literal
                    assert(piece_text(c[i + 1])[0] == ':');
                    assert(ra == piece_text(c[i + 1]).add(rb));
                    assert(ra[0] == ':');
                    assert(s[w] == ':');
                    assert(tlong[k] == ':');
                },
                Position::Indexed(_, _) => {
                    // a lone `*` token would stand inside the longer
                    // literal
                    assert(piece_text(c[i + 1]) =~= seq!['*']);
                    assert(ra == piece_text(c[i + 1]).add(rb));
                    assert(ra[0] == '*');
                    assert(s[w] == '*');
                    assert(tlong[k] == '*');
                    assert(k + 1 < tlong.len() && tlong[k + 1] != '/');
                    assert(s[w + 1] != '/');
                    lemma_concat_split(seq!['*'], rb, s, w);
                    if i + 2 < c.len() {
                        assert(wf_at(c, i + 1));
                        assert(rb == flat_from(c, i + 2));
                        lemma_flat_len(c, i + 2);
                        assert(rb.len() > 0);
                        match c[i + 2] {
                            Piece::Literal(t2) => {
                                assert(rb == t2@.add(flat_from(c, i + 3)));
                                assert(rb[0] == t2@[0]);
                                assert(t2@[0] == '/');
                                assert(s[w + 1] == '/');
                            },
                            Piece::Parameter(_) => {
                                assert(false);
                            },
                        }
                    } else {
                        // the pattern would end right after the star,
                        // inside the longer literal
                        assert(rb =~= Seq::<char>::empty());
                        assert(w + 1 == s.len());
                        assert(k + 1 < tlong.len());
                        assert(o + tlong.len() > w + 1);
                    }
                },
            }
        },
        Piece::Literal(_) => {
            assert(false);
        },
    }
        assert(false);
    }
}

/// Two pieces that agree: equal literal text, or parameters written the
/// same way under the same name.
pub open spec fn pieces_agree(x: Piece, y: Piece) -> bool {
    match (x, y) {
        (Piece::Literal(t1), Piece::Literal(t2)) => t1@ == t2@,
        (Piece::Parameter(Position::Named(n1)), Piece::Parameter(Position::Named(n2))) => n1@
            == n2@,
        (Piece::Parameter(Position::Indexed(x1, n1)), Piece::Parameter(
            Position::Indexed(x2, n2),
        )) => x1 == x2 && n1@ == n2@,
        _ => false,
    }
}

proof fn lemma_unique_from(s: Seq<char>, a: Seq<Piece>, b: Seq<Piece>, i: int, o: int)
    requires
        0 <= i <= a.len(),
        i <= b.len(),
        0 <= o <= s.len(),
        wf_pieces(a),
        wf_pieces(b),
        flat_from(a, i) == s.subrange(o, s.len() as int),
        flat_from(b, i) == s.subrange(o, s.len() as int),
        indexed_before(a, i) == indexed_before(b, i),
    ensures
        a.len() == b.len(),
        forall|q: int| i <= q < a.len() ==> #[trigger] pieces_agree(a[q], b[q]),
    decreases a.len() - i,
{
    if i == a.len() || i == b.len() {
        lemma_flat_len(a, i);
        lemma_flat_len(b, i);
        if i == a.len() {
            assert(flat_from(a, i).len() == 0);
            assert(b.len() <= i);
        } else {
            assert(flat_from(b, i).len() == 0);
            assert(a.len() <= i);
        }
    } else {
        assert(wf_at(a, i));
        assert(wf_at(b, i));
        let ra = flat_from(a, i + 1);
        let rb = flat_from(b, i + 1);
        assert(flat_from(a, i) == piece_text(a[i]).add(ra));
        assert(flat_from(b, i) == piece_text(b[i]).add(rb));
        match (a[i], b[i]) {
            (Piece::Literal(t1), Piece::Literal(t2)) => {
                lemma_concat_split(t1@, ra, s, o);
                lemma_concat_split(t2@, rb, s, o);
                if t1@.len() < t2@.len() {
                    lemma_lit_shorter_absurd(s, a, i, o, t2@);
                } else if t2@.len() < t1@.len() {
                    lemma_lit_shorter_absurd(s, b, i, o, t1@);
                }
                assert(t1@ =~= t2@);
                lemma_unique_from(s, a, b, i + 1, o + t1@.len());
            },
            (Piece::Literal(t1), Piece::Parameter(p2)) => {
                lemma_concat_split(t1@, ra, s, o);
                assert(canonical_lit(t1@));
                assert(plain_token_at(t1@, 0));
                match p2 {
                    Position::Named(_) => {
                        assert(flat_from(b, i)[0] == ':');
                        assert(s[o] == ':');
                        assert(t1@[0] == ':');
                        assert(false);
                    },
                    Position::Indexed(_, _) => {
                        assert(piece_text(b[i]) =~= seq!['*']);
                        assert(flat_from(b, i)[0] == '*');
                        assert(s[o] == '*');
                        assert(t1@[0] == '*');
                        assert(t1@.len() > 1 && t1@[1] != '/');
                        lemma_concat_split(seq!['*'], rb, s, o);
                        if i + 1 < b.len() {
                            assert(wf_at(b, i + 1));
                            lemma_flat_len(b, i + 1);
                            assert(rb.len() > 0);
                            match b[i + 1] {
                                Piece::Literal(t2) => {
                                    assert(rb == t2@.add(flat_from(b, i + 2)));
                                    assert(rb[0] == t2@[0]);
                                    assert(t2@[0] == '/');
                                    assert(s[o + 1] == '/');
                                    assert(t1@[1] == '/');
                                },
                                Piece::Parameter(_) => {
                                    assert(false);
                                },
                            }
                        } else {
                            assert(rb =~= Seq::<char>::empty());
                            assert(o + 1 == s.len());
                            assert(o + t1@.len() <= s.len());
                        }
                        assert(false);
                    },
                }
            },
            (Piece::Parameter(p1), Piece::Literal(t2)) => {
                lemma_concat_split(t2@, rb, s, o);
                assert(canonical_lit(t2@));
                assert(plain_token_at(t2@, 0));
                match p1 {
                    Position::Named(_) => {
                        assert(flat_from(a, i)[0] == ':');
                        assert(s[o] == ':');
                        assert(t2@[0] == ':');
                        assert(false);
                    },
                    Position::Indexed(_, _) => {
                        assert(piece_text(a[i]) =~= seq!['*']);
                        assert(flat_from(a, i)[0] == '*');
                        assert(s[o] == '*');
                        assert(t2@[0] == '*');
                        assert(t2@.len() > 1 && t2@[1] != '/');
                        lemma_concat_split(seq!['*'], ra, s, o);
                        if i + 1 < a.len() {
                            assert(wf_at(a, i + 1));
                            lemma_flat_len(a, i + 1);
                            assert(ra.len() > 0);
                            match a[i + 1] {
                                Piece::Literal(t1) => {
                                    assert(ra == t1@.add(flat_from(a, i + 2)));
                                    assert(ra[0] == t1@[0]);
                                    assert(t1@[0] == '/');
                                    assert(s[o + 1] == '/');
                                    assert(t2@[1] == '/');
                                },
                                Piece::Parameter(_) => {
                                    assert(false);
                                },
                            }
                        } else {
                            assert(ra =~= Seq::<char>::empty());
                            assert(o + 1 == s.len());
                            assert(o + t2@.len() <= s.len());
                        }
                        assert(false);
                    },
                }
            },
            (Piece::Parameter(p1), Piece::Parameter(p2)) => {
                match (p1, p2) {
                    (Position::Named(n1), Position::Named(n2)) => {
                        assert(piece_text(a[i]) =~= seq![':'].add(n1@));
                        assert(piece_text(b[i]) =~= seq![':'].add(n2@));
                        assert(seq![':'].add(n1@).add(ra) =~= seq![':'].add(n1@.add(ra)));
                        assert(seq![':'].add(n2@).add(rb) =~= seq![':'].add(n2@.add(rb)));
                        lemma_concat_split(seq![':'], n1@.add(ra), s, o);
                        lemma_concat_split(n1@, ra, s, o + 1);
                        lemma_concat_split(seq![':'], n2@.add(rb), s, o);
                        lemma_concat_split(n2@, rb, s, o + 1);
                        param_name_span(s, a, i, o, n1@);
                        param_name_span(s, b, i, o, n2@);
                        assert(o + 1 + n1@.len() == seg_end(s, o + 1));
                        assert(o + 1 + n2@.len() == seg_end(s, o + 1));
                        assert(n1@ =~= n2@);
                        lemma_unique_from(s, a, b, i + 1, o + 1 + n1@.len());
                    },
                    (Position::Named(n1), Position::Indexed(_, _)) => {
                        assert(flat_from(a, i)[0] == ':');
                        assert(flat_from(b, i)[0] == '*');
                        assert(false);
                    },
                    (Position::Indexed(_, _), Position::Named(n2)) => {
                        assert(flat_from(a, i)[0] == '*');
                        assert(flat_from(b, i)[0] == ':');
                        assert(false);
                    },
                    (Position::Indexed(x1, n1), Position::Indexed(x2, n2)) => {
                        assert(x1 as nat == indexed_before(a, i));
                        assert(x2 as nat == indexed_before(b, i));
                        assert(n1@ == dec_digits(x1 as nat));
                        assert(n2@ == dec_digits(x2 as nat));
                        assert(piece_text(a[i]) =~= seq!['*']);
                        assert(piece_text(b[i]) =~= seq!['*']);
                        lemma_concat_split(seq!['*'], ra, s, o);
                        lemma_concat_split(seq!['*'], rb, s, o);
                        lemma_unique_from(s, a, b, i + 1, o + 1);
                    },
                }
            },
        }
        assert forall|q: int| i <= q < a.len() implies #[trigger] pieces_agree(a[q], b[q]) by {
            if q == i {
                assert(pieces_agree(a[i], b[i]));
            }
        }
    }
}

/// A named parameter's name spans its whole token: from just after the
/// `:` to the next separator or the end of the text.
proof fn param_name_span(s: Seq<char>, c: Seq<Piece>, i: int, o: int, nm: Seq<char>)
    requires
        0 <= o,
        0 <= i < c.len(),
        wf_pieces(c),
        (c[i] matches Piece::Parameter(Position::Named(n)) && n@ == nm),
        flat_from(c, i) == s.subrange(o, s.len() as int),
        o + 1 + nm.len() <= s.len(),
        nm == s.subrange(o + 1, o + 1 + nm.len()),
        flat_from(c, i + 1) == s.subrange(o + 1 + nm.len(), s.len() as int),
    ensures
        seg_end(s, o + 1) == o + 1 + nm.len(),
{
    let y = o + 1 + nm.len();
    assert(wf_at(c, i));
    assert forall|k: int| o + 1 <= k < y implies s[k] != '/' by {
        match c[i] {
            Piece::Parameter(pos) => {
                assert(pos_name(pos)[k - o - 1] != '/');
                assert(nm[k - o - 1] == s[k]);
            },
            Piece::Literal(_) => {
                assert(false);
            },
        }
    }
    if y < s.len() {
        let rest = flat_from(c, i + 1);
        assert(rest.len() > 0);
        assert(i + 1 < c.len()) by {
            if i + 1 >= c.len() {
                assert(rest =~= Seq::<char>::empty());
            }
        }
        assert(wf_at(c, i + 1));
        match c[i + 1] {
            Piece::Literal(t2) => {
                assert(rest == t2@.add(flat_from(c, i + 2)));
                assert(rest[0] == t2@[0]);
                assert(t2@[0] == '/');
                assert(s[y] == '/');
            },
            Piece::Parameter(_) => {
                assert(false);
            },
        }
    }
    lemma_seg_end_pin(s, o + 1, y);
}

/// Agreeing piece sequences declare the same parameter names.
pub proof fn lemma_agree_names(a: Seq<Piece>, b: Seq<Piece>, i: int)
    requires
        0 <= i,
        a.len() == b.len(),
        forall|q: int| 0 <= q < a.len() ==> #[trigger] pieces_agree(a[q], b[q]),
    ensures
        names_from(a, i) == names_from(b, i),
    decreases a.len() - i,
{
    if i < a.len() {
        lemma_agree_names(a, b, i + 1);
        assert(pieces_agree(a[i], b[i]));
    }
}

/// A pattern string determines its pieces: any two well-formed piece
/// sequences that spell the same pattern agree piece by piece — the
/// parse is unambiguous.
pub proof fn lemma_parse_unambiguous(s: Seq<char>, a: Seq<Piece>, b: Seq<Piece>)
    requires
        parsed_ok(s, a),
        parsed_ok(s, b),
    ensures
        a.len() == b.len(),
        forall|q: int| 0 <= q < a.len() ==> #[trigger] pieces_agree(a[q], b[q]),
{
    assert(s.subrange(0, s.len() as int) =~= s);
    lemma_unique_from(s, a, b, 0, 0);
}

/// Spells a piece sequence back into its pattern string.
pub fn pieces_to_string(ps: &Vec<Piece>) -> (r: String)
    ensures
        r@ == flat(ps@),
{
    let mut s = String::new();
    let mut i: usize = 0;
    while i < ps.len()
        invariant
            i <= ps@.len(),
            s@.add(flat_from(ps@, i as int)) == flat(ps@),
        decreases ps@.len() - i,
    {
        let ghost pre = s@;
        match &ps[i] {
            Piece::Literal(t) => {
                s.append(t.as_str());
            },
            Piece::Parameter(Position::Named(n)) => {
                push_char(&mut s, ':');
                s.append(n.as_str());
            },
            Piece::Parameter(Position::Indexed(_, _)) => {
                push_char(&mut s, '*');
            },
        }
        proof {
            assert(s@ =~= pre.add(piece_text(ps@[i as int])));
            assert(s@.add(flat_from(ps@, i as int + 1)) =~= pre.add(flat_from(ps@, i as int)));
        }
        i = i + 1;
    }
    proof {
        assert(s@ =~= flat(ps@));
    }
    s
}

} // verus!
