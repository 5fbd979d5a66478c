//! Decomposing one pattern into its parameter names and an
//! interpolation-ready template.
//!
//! The template reproduces every literal verbatim and wraps each
//! parameter name in the delimiters `` {` `` and `` `} `` — the
//! convention callers rely on when interpolating captured values.
use vstd::prelude::*;
use vstd::string::*;

use crate::pattern::Piece;
use crate::pattern::MalformedPattern;
use crate::pattern::pos_name;
use crate::pattern::param_names;
use crate::pattern::names_from;
use crate::pattern::parse;
use crate::pattern::parsed_ok;
use crate::pattern::parse_fails_at;
use crate::pattern::has_bad_token;
use crate::pattern::push_char;
use crate::pattern::seg_end;
use crate::pattern::pieces_agree;
use crate::pattern::lemma_agree_names;
use crate::pattern::lemma_parse_unambiguous;
use crate::matching::is_wild_at;
use crate::matching::matches_from;
use crate::matching::pattern_matches;
use crate::matching::pos_name_exec;

verus! {

/// The text one piece contributes to the template: literal text
/// verbatim, a parameter as its name between the delimiters.
pub open spec fn piece_template(p: Piece) -> Seq<char> {
    match p {
        Piece::Literal(t) => t@,
        Piece::Parameter(pos) => seq!['{', '`'].add(pos_name(pos)).add(seq!['`', '}']),
    }
}

/// The template text of the pieces from `i` on.
pub open spec fn template_from(ps: Seq<Piece>, i: int) -> Seq<char>
    decreases ps.len() - i,
{
    if i < 0 || i >= ps.len() {
        Seq::empty()
    } else {
        piece_template(ps[i]).add(template_from(ps, i + 1))
    }
}

/// The template text of a whole pattern.
pub open spec fn template_of(ps: Seq<Piece>) -> Seq<char> {
    template_from(ps, 0)
}

/// Agreeing piece sequences spell the same template.
pub proof fn lemma_agree_template(a: Seq<Piece>, b: Seq<Piece>, i: int)
    requires
        0 <= i,
        a.len() == b.len(),
        forall|q: int| 0 <= q < a.len() ==> #[trigger] pieces_agree(a[q], b[q]),
    ensures
        template_from(a, i) == template_from(b, i),
    decreases a.len() - i,
{
    if i < a.len() {
        lemma_agree_template(a, b, i + 1);
        assert(pieces_agree(a[i], b[i]));
        assert(piece_template(a[i]) == piece_template(b[i]));
    }
}

/// Decomposes a pattern into its parameter names, in order, and its
/// template string, independent of any route table.  A malformed
/// pattern is reported exactly as at insertion, its offset in
/// characters (see `MalformedPattern`).
///
/// The result is stated against every parse of the pattern: since the
/// parse is unambiguous, the keys and the template are pinned down.
pub fn decompose(pattern: &str) -> (r: Result<(Vec<String>, String), MalformedPattern>)
    ensures
        match r {
            Ok(kt) => (exists|ps: Seq<Piece>| #[trigger] parsed_ok(pattern@, ps)) && forall|
                ps: Seq<Piece>,
            |
                #[trigger] parsed_ok(pattern@, ps) ==> kt.0@.map_values(|s: String| s@)
                    == param_names(ps) && kt.1@ == template_of(ps),
            Err(e) => parse_fails_at(pattern@, e.offset as int),
        },
        (r is Err) == has_bad_token(pattern@),
{
    let ps = match parse(pattern) {
        Ok(ps) => ps,
        Err(e) => {
            return Err(e);
        },
    };
    let mut keys: Vec<String> = Vec::new();
    let mut tpl = String::new();
    let mut i: usize = 0;
    proof {
        assert(keys@.map_values(|s: String| s@) =~= Seq::<Seq<char>>::empty());
    }
    while i < ps.len()
        invariant
            i <= ps@.len(),
            keys@.map_values(|s: String| s@).add(names_from(ps@, i as int)) == param_names(ps@),
            tpl@.add(template_from(ps@, i as int)) == template_of(ps@),
        decreases ps@.len() - i,
    {
        let ghost pre_keys = keys@;
        let ghost pre_tpl = tpl@;
        let piece = &ps[i];
        match piece {
            Piece::Literal(t) => {
                tpl.append(t.as_str());
            },
            Piece::Parameter(pos) => {
                let nm = pos_name_exec(pos);
                push_char(&mut tpl, '{');
                push_char(&mut tpl, '`');
                tpl.append(nm.as_str());
                push_char(&mut tpl, '`');
                push_char(&mut tpl, '}');
                keys.push(nm);
            },
        }
        proof {
            assert(tpl@ =~= pre_tpl.add(piece_template(ps@[i as int])));
            assert(tpl@.add(template_from(ps@, i as int + 1)) =~= pre_tpl.add(
                template_from(ps@, i as int),
            ));
            assert(keys@.map_values(|s: String| s@).add(names_from(ps@, i as int + 1)) =~= pre_keys.map_values(
                |s: String| s@,
            ).add(names_from(ps@, i as int)));
        }
        i = i + 1;
    }
    proof {
        assert(keys@.map_values(|s: String| s@) =~= param_names(ps@));
        assert(tpl@ =~= template_of(ps@));
        assert(parsed_ok(pattern@, ps@));
        assert forall|w: Seq<Piece>| #[trigger] parsed_ok(pattern@, w) implies keys@.map_values(
            |s: String| s@,
        ) == param_names(w) && tpl@ == template_of(w) by {
            lemma_parse_unambiguous(pattern@, ps@, w);
            lemma_agree_names(ps@, w, 0);
            lemma_agree_template(ps@, w, 0);
        }
    }
    Ok((keys, tpl))
}

/// The path text a successful match stands for, rebuilt from the
/// pattern: every literal verbatim, every parameter replaced by the text
/// it captured — exactly what interpolating the captured values into the
/// template yields, without the delimiters.
pub open spec fn filled_from(ps: Seq<Piece>, i: int, p: Seq<char>, j: int) -> Seq<char>
    decreases ps.len() - i,
{
    if i < 0 || i >= ps.len() {
        Seq::empty()
    } else {
        match ps[i] {
            Piece::Literal(t) => t@.add(filled_from(ps, i + 1, p, j + t@.len())),
            Piece::Parameter(_) => {
                if is_wild_at(ps, i) {
                    p.subrange(j, p.len() as int)
                } else {
                    p.subrange(j, seg_end(p, j)).add(filled_from(ps, i + 1, p, seg_end(p, j)))
                }
            },
        }
    }
}

proof fn lemma_filled(ps: Seq<Piece>, i: int, p: Seq<char>, j: int)
    requires
        0 <= i,
        matches_from(ps, i, p, j),
    ensures
        0 <= j <= p.len(),
        filled_from(ps, i, p, j) == p.subrange(j, p.len() as int),
    decreases ps.len() - i,
{
    if i >= ps.len() {
        assert(filled_from(ps, i, p, j) =~= p.subrange(j, p.len() as int));
    } else {
        match ps[i] {
            Piece::Literal(t) => {
                lemma_filled(ps, i + 1, p, j + t@.len());
                assert(filled_from(ps, i, p, j) =~= p.subrange(j, p.len() as int));
            },
            Piece::Parameter(_) => {
                if is_wild_at(ps, i) {
                } else {
                    lemma_filled(ps, i + 1, p, seg_end(p, j));
                    assert(filled_from(ps, i, p, j) =~= p.subrange(j, p.len() as int));
                }
            },
        }
    }
}

/// The round trip: rebuilding a matched path from the pattern's literals
/// and the values its parameters captured reproduces that path exactly —
/// so the rebuilt path matches the same route again, with the same
/// bindings.
pub proof fn lemma_round_trip(ps: Seq<Piece>, p: Seq<char>)
    requires
        pattern_matches(ps, p),
    ensures
        filled_from(ps, 0, p, 0) == p,
{
    lemma_filled(ps, 0, p, 0);
    assert(p.subrange(0, p.len() as int) =~= p);
}

} // verus!
