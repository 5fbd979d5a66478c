//! The route table: patterns indexed against identifiers.
//!
//! Routes are stored in insertion order; every route ever inserted keeps
//! its row, so insertion handles stay valid for the lifetime of the
//! table.  At most one parameter slot exists per structural position: a
//! pattern whose structure coincides with an earlier one up to a
//! parameter adopts that parameter's established name (the second name is
//! ignored — the documented conflict policy, visible in the diagnostic
//! rendering).  Inserting a pattern structurally equal to a live one
//! overwrites it: the old row loses its live flag, its handle still
//! resolves to its own pattern.  `find` returns, among the live routes
//! matching a path, the one whose mode word is lexicographically least —
//! exactly the route a backtracking tree walk trying literal edges before
//! the parameter child before the wildcard child would reach first — with
//! the earliest-inserted route winning a tie.
use vstd::prelude::*;
use vstd::string::*;

use crate::pattern::Piece;
use crate::pattern::Position;
use crate::pattern::MalformedPattern;
use crate::pattern::piece_name;
use crate::pattern::pieces_agree;
use crate::pattern::lemma_parse_unambiguous;
use crate::pattern::flat;
use crate::pattern::parse;
use crate::pattern::parsed_ok;
use crate::pattern::parse_fails_at;
use crate::pattern::has_bad_token;
use crate::pattern::pieces_to_string;
use crate::matching::is_wild_at;
use crate::matching::pattern_matches;
use crate::matching::pattern_captures;
use crate::matching::pattern_modes;
use crate::matching::lex_lt;
use crate::matching::lex_less;
use crate::matching::bind_views;
use crate::matching::mode_views;
use crate::matching::match_pattern;
use crate::matching::pos_name_exec;
use crate::matching::lemma_lex_trans;
use crate::matching::lemma_lex_connex;
use crate::matching::lemma_modes_len;

verus! {

/// One stored route: its (effective) pieces, its identifier, and whether
/// it is still live or was overwritten by a later structurally-equal
/// insertion.
pub struct Entry {
    pub pieces: Vec<Piece>,
    pub id: String,
    pub live: bool,
}

/// The route table.
pub struct Router {
    pub entries: Vec<Entry>,
}

/// A successful lookup: the identifier of the best-matching route and
/// its bindings, one (name, captured text) pair per parameter in pattern
/// order.
pub struct MatchResult {
    pub id: String,
    pub params: Vec<(String, String)>,
}

/// Structural equality of two patterns at one position: same literal
/// text, or parameters of the same kind (single-segment or trailing
/// wildcard), names disregarded.
pub open spec fn skel_eq_at(a: Seq<Piece>, b: Seq<Piece>, q: int) -> bool {
    match (a[q], b[q]) {
        (Piece::Literal(t1), Piece::Literal(t2)) => t1@ == t2@,
        (Piece::Parameter(_), Piece::Parameter(_)) => is_wild_at(a, q) == is_wild_at(b, q),
        _ => false,
    }
}

/// Holds when position `i` of pattern `b` falls on the same structural
/// slot as position `i` of pattern `a`: the two agree structurally up to
/// and including `i`.
pub open spec fn shares_slot(a: Seq<Piece>, b: Seq<Piece>, i: int) -> bool {
    &&& 0 <= i < a.len()
    &&& i < b.len()
    &&& forall|q: int| 0 <= q <= i ==> #[trigger] skel_eq_at(a, b, q)
}

/// Structural equality of two whole patterns, names disregarded.
pub open spec fn skel_eq(a: Seq<Piece>, b: Seq<Piece>) -> bool {
    &&& a.len() == b.len()
    &&& forall|q: int| 0 <= q < a.len() ==> #[trigger] skel_eq_at(a, b, q)
}

/// The established name of the slot that position `i` of `ps` falls on:
/// the name stored by the earliest route sharing that slot, if any.
pub open spec fn slot_name(entries: Seq<Entry>, ps: Seq<Piece>, i: int) -> Option<Seq<char>>
    decreases entries.len(),
{
    if entries.len() == 0 {
        Option::None
    } else if shares_slot(entries[0].pieces@, ps, i) {
        Option::Some(piece_name(entries[0].pieces@[i]))
    } else {
        slot_name(entries.drop_first(), ps, i)
    }
}

/// The name that position `i` of a freshly parsed pattern ends up bound
/// under: the established slot name if the slot exists, else its own.
pub open spec fn effective_name(entries: Seq<Entry>, ps0: Seq<Piece>, i: int) -> Seq<char> {
    match slot_name(entries, ps0, i) {
        Option::Some(nm) => nm,
        Option::None => piece_name(ps0[i]),
    }
}

/// Two pieces of the same shape: equal literal text, or parameters of
/// the same constructor (and ordinal), names disregarded.
pub open spec fn same_shape_at(a: Seq<Piece>, b: Seq<Piece>, i: int) -> bool {
    match (a[i], b[i]) {
        (Piece::Literal(t1), Piece::Literal(t2)) => t1@ == t2@,
        (Piece::Parameter(Position::Named(_)), Piece::Parameter(Position::Named(_))) => true,
        (Piece::Parameter(Position::Indexed(x1, _)), Piece::Parameter(
            Position::Indexed(x2, _),
        )) => x1 == x2,
        _ => false,
    }
}

/// What insertion stores for a pattern parsed as `ps0`: a live route
/// under the given identifier whose pieces keep the parsed shape, with
/// every parameter bound under its effective name.
pub open spec fn inserted_entry_ok(
    old_entries: Seq<Entry>,
    ent: Entry,
    ps0: Seq<Piece>,
    id: Seq<char>,
) -> bool {
    &&& ent.live
    &&& ent.id@ == id
    &&& ent.pieces@.len() == ps0.len()
    &&& forall|i: int| 0 <= i < ps0.len() ==> #[trigger] same_shape_at(ent.pieces@, ps0, i)
    &&& forall|i: int|
        0 <= i < ps0.len() && ps0[i] is Parameter ==> #[trigger] piece_name(ent.pieces@[i])
            == effective_name(old_entries, ps0, i)
}

/// Agreement is stronger than shape: agreeing pieces share their shape.
proof fn lemma_agree_is_shape(a: Seq<Piece>, b: Seq<Piece>)
    requires
        a.len() == b.len(),
        forall|q: int| 0 <= q < a.len() ==> #[trigger] pieces_agree(a[q], b[q]),
    ensures
        forall|q: int| 0 <= q < a.len() ==> #[trigger] same_shape_at(a, b, q),
{
    assert forall|q: int| 0 <= q < a.len() implies #[trigger] same_shape_at(a, b, q) by {
        assert(pieces_agree(a[q], b[q]));
    }
}

/// Structural equality only reads the shape of its right side.
proof fn lemma_skel_eq_shape(e: Seq<Piece>, a: Seq<Piece>, b: Seq<Piece>)
    requires
        skel_eq(e, a),
        a.len() == b.len(),
        forall|q: int| 0 <= q < a.len() ==> #[trigger] same_shape_at(a, b, q),
    ensures
        skel_eq(e, b),
{
    assert forall|q: int| 0 <= q < e.len() implies #[trigger] skel_eq_at(e, b, q) by {
        assert(skel_eq_at(e, a, q));
        assert(same_shape_at(a, b, q));
        assert(is_wild_at(a, q) == is_wild_at(b, q));
    }
}

/// Pieces of the same shape present the same structure to `skel_eq_at`.
proof fn lemma_skel_shape(e: Seq<Piece>, a: Seq<Piece>, b: Seq<Piece>, i: int)
    requires
        a.len() == b.len(),
        forall|q: int| 0 <= q < a.len() ==> #[trigger] same_shape_at(a, b, q),
    ensures
        shares_slot(e, a, i) == shares_slot(e, b, i),
{
    if shares_slot(e, a, i) {
        assert forall|q: int| 0 <= q <= i implies #[trigger] skel_eq_at(e, b, q) by {
            assert(skel_eq_at(e, a, q));
            assert(same_shape_at(a, b, q));
            assert(is_wild_at(a, q) == is_wild_at(b, q));
        }
        assert(shares_slot(e, b, i));
    }
    if shares_slot(e, b, i) {
        assert forall|q: int| 0 <= q <= i implies #[trigger] skel_eq_at(e, a, q) by {
            assert(skel_eq_at(e, b, q));
            assert(same_shape_at(a, b, q));
            assert(is_wild_at(a, q) == is_wild_at(b, q));
        }
        assert(shares_slot(e, a, i));
    }
}

/// The slot names seen by a pattern depend only on its structure.
proof fn lemma_slot_name_shape(entries: Seq<Entry>, a: Seq<Piece>, b: Seq<Piece>, i: int)
    requires
        a.len() == b.len(),
        forall|q: int| 0 <= q < a.len() ==> #[trigger] same_shape_at(a, b, q),
    ensures
        slot_name(entries, a, i) == slot_name(entries, b, i),
    decreases entries.len(),
{
    if entries.len() > 0 {
        lemma_skel_shape(entries[0].pieces@, a, b, i);
        lemma_slot_name_shape(entries.drop_first(), a, b, i);
    }
}

/// Decides whether piece `q` is the trailing wildcard of its pattern.
fn is_wild_exec(v: &Vec<Piece>, q: usize) -> (r: bool)
    requires
        q < v@.len(),
    ensures
        r == is_wild_at(v@, q as int),
{
    let n = v.len();
    if q + 1 != n {
        return false;
    }
    let piece = &v[q];
    match piece {
        Piece::Parameter(Position::Indexed(_, _)) => true,
        _ => false,
    }
}

/// Decides structural equality of two patterns at one position.
fn skel_eq_at_exec(a: &Vec<Piece>, b: &Vec<Piece>, q: usize) -> (r: bool)
    requires
        q < a@.len(),
        q < b@.len(),
    ensures
        r == skel_eq_at(a@, b@, q as int),
{
    let pa = &a[q];
    let pb = &b[q];
    match (pa, pb) {
        (Piece::Literal(t1), Piece::Literal(t2)) => t1.eq(t2),
        (Piece::Parameter(_), Piece::Parameter(_)) => {
            let wa = is_wild_exec(a, q);
            let wb = is_wild_exec(b, q);
            wa == wb
        },
        _ => false,
    }
}

/// Decides whether position `i` of `b` falls on a slot of `a`.
fn shares_slot_exec(a: &Vec<Piece>, b: &Vec<Piece>, i: usize) -> (r: bool)
    requires
        i < b@.len(),
    ensures
        r == shares_slot(a@, b@, i as int),
{
    if i >= a.len() {
        return false;
    }
    let mut q: usize = 0;
    while q <= i
        invariant
            q <= i + 1,
            i < a@.len(),
            i < b@.len(),
            forall|z: int| 0 <= z < q ==> #[trigger] skel_eq_at(a@, b@, z),
        decreases i + 1 - q,
    {
        if !skel_eq_at_exec(a, b, q) {
            return false;
        }
        q = q + 1;
    }
    true
}

/// Decides structural equality of two whole patterns.
fn skel_eq_exec(a: &Vec<Piece>, b: &Vec<Piece>) -> (r: bool)
    ensures
        r == skel_eq(a@, b@),
{
    if a.len() != b.len() {
        return false;
    }
    let mut q: usize = 0;
    while q < a.len()
        invariant
            q <= a@.len(),
            a@.len() == b@.len(),
            forall|z: int| 0 <= z < q ==> #[trigger] skel_eq_at(a@, b@, z),
        decreases a@.len() - q,
    {
        if !skel_eq_at_exec(a, b, q) {
            return false;
        }
        q = q + 1;
    }
    true
}

/// Looks up the established name of the slot that position `i` of `ps`
/// falls on.
fn find_slot_name(entries: &Vec<Entry>, ps: &Vec<Piece>, i: usize) -> (r: Option<String>)
    requires
        i < ps@.len(),
    ensures
        match r {
            Some(nm) => slot_name(entries@, ps@, i as int) == Option::Some(nm@),
            None => slot_name(entries@, ps@, i as int) is None,
        },
{
    let mut k: usize = 0;
    proof {
        assert(entries@.skip(0) =~= entries@);
    }
    loop
        invariant
            k <= entries@.len(),
            slot_name(entries@, ps@, i as int) == slot_name(
                entries@.skip(k as int),
                ps@,
                i as int,
            ),
        decreases entries@.len() - k,
    {
        if k >= entries.len() {
            return None;
        }
        let ent = &entries[k];
        proof {
            assert(entries@.skip(k as int)[0] == entries@[k as int]);
        }
        if shares_slot_exec(&ent.pieces, ps, i) {
            let nm = match &ent.pieces[i] {
                Piece::Parameter(pos) => pos_name_exec(pos),
                Piece::Literal(_) => String::new(),
            };
            proof {
                assert(piece_name(ent.pieces@[i as int]) == nm@);
            }
            return Some(nm);
        }
        proof {
            assert(entries@.skip(k as int).drop_first() =~= entries@.skip(k as int + 1));
        }
        k = k + 1;
    }
}

/// The separator between a route's pattern and its identifier in the
/// diagnostic rendering: ` => `.
pub open spec fn arrow_text() -> Seq<char> {
    seq![' ', '=', '>', ' ']
}

/// The marker the diagnostic rendering appends to a route that was
/// overwritten: ` (overwritten)`.
pub open spec fn overwritten_text() -> Seq<char> {
    seq![' ', '(', 'o', 'v', 'e', 'r', 'w', 'r', 'i', 't', 't', 'e', 'n', ')']
}

/// One line of the diagnostic rendering: the pattern text the stored
/// pieces spell — their effective parameter names, so a name overridden
/// by the conflict policy is surfaced here — the separator, the route's
/// identifier, and, exactly on the rows that are no longer live, the
/// overwritten marker.
pub open spec fn render_line(e: Entry) -> Seq<char> {
    flat(e.pieces@).add(arrow_text()).add(e.id@).add(
        if e.live {
            Seq::empty()
        } else {
            overwritten_text()
        },
    ).push('\n')
}

/// The whole diagnostic rendering: one line per route ever inserted, in
/// table order.
pub open spec fn render_lines(entries: Seq<Entry>) -> Seq<char>
    decreases entries.len(),
{
    if entries.len() == 0 {
        Seq::empty()
    } else {
        render_lines(entries.drop_last()).add(render_line(entries.last()))
    }
}

/// The live routes among the entries, in table order: the pattern text
/// each spells and its identifier.
pub open spec fn live_routes_of(entries: Seq<Entry>) -> Seq<(Seq<char>, Seq<char>)>
    decreases entries.len(),
{
    if entries.len() == 0 {
        Seq::empty()
    } else if entries.last().live {
        live_routes_of(entries.drop_last()).push(
            (flat(entries.last().pieces@), entries.last().id@),
        )
    } else {
        live_routes_of(entries.drop_last())
    }
}

/// The number of live routes among the entries.
pub open spec fn live_count(entries: Seq<Entry>) -> nat
    decreases entries.len(),
{
    if entries.len() == 0 {
        0
    } else {
        live_count(entries.drop_last()) + (if entries.last().live {
            1nat
        } else {
            0nat
        })
    }
}

impl Router {
    /// Every state of the table keeps at most one live route per
    /// structure: inserting a structurally equal pattern overwrites.
    pub open spec fn wf(self) -> bool {
        forall|k1: int, k2: int|
            #![trigger self.entries@[k1], self.entries@[k2]]
            0 <= k1 < k2 < self.entries@.len() && self.entries@[k1].live
                && self.entries@[k2].live ==> !skel_eq(
                self.entries@[k1].pieces@,
                self.entries@[k2].pieces@,
            )
    }

    /// Holds when route `k` is live and matches the path.
    pub open spec fn entry_matches(self, k: int, p: Seq<char>) -> bool {
        &&& 0 <= k < self.entries@.len()
        &&& self.entries@[k].live
        &&& pattern_matches(self.entries@[k].pieces@, p)
    }

    /// The mode word of route `k` on the path.
    pub open spec fn entry_modes(self, k: int, p: Seq<char>) -> Seq<int> {
        pattern_modes(self.entries@[k].pieces@, p)
    }

    /// Holds when route `k` is the match that wins: live, matching, of
    /// strictly least mode word among the live matches before it, and of
    /// no greater mode word than any after it.
    pub open spec fn best_at(self, k: int, p: Seq<char>) -> bool {
        &&& self.entry_matches(k, p)
        &&& forall|k2: int|
            #[trigger] self.entry_matches(k2, p) && k2 != k ==> if k2 < k {
                lex_lt(self.entry_modes(k, p), self.entry_modes(k2, p))
            } else {
                !lex_lt(self.entry_modes(k2, p), self.entry_modes(k, p))
            }
    }

    /// Constructs an empty route table.
    pub fn new() -> (r: Router)
        ensures
            r.entries@.len() == 0,
            r.wf(),
    {
        Router { entries: Vec::new() }
    }

    /// Inserts a pattern under an identifier and returns its handle: the
    /// index of its row, stable for the lifetime of the table.
    ///
    /// The pattern is parsed; a malformed pattern is reported with the
    /// offset of its empty-named parameter — in characters, see
    /// `MalformedPattern` — and leaves the table untouched.  Otherwise each parameter adopts the name of the
    /// structural slot it falls on, if an earlier route established one;
    /// any live route of equal structure loses its live flag (last write
    /// wins); the new route is stored live.
    pub fn insert(&mut self, pattern: &str, id: &str) -> (r: Result<usize, MalformedPattern>)
        requires
            old(self).wf(),
        ensures
            final(self).wf(),
            match r {
                Ok(h) => {
                    &&& h == old(self).entries@.len()
                    &&& final(self).entries@.len() == h + 1
                    &&& forall|k: int|
                        #![trigger final(self).entries@[k]]
                        0 <= k < h ==> {
                            &&& final(self).entries@[k].pieces == old(self).entries@[k].pieces
                            &&& final(self).entries@[k].id == old(self).entries@[k].id
                            &&& final(self).entries@[k].live == (old(self).entries@[k].live
                                && !skel_eq(
                                old(self).entries@[k].pieces@,
                                final(self).entries@[h as int].pieces@,
                            ))
                        }
                    &&& (exists|ps0: Seq<Piece>| #[trigger] parsed_ok(pattern@, ps0))
                    &&& forall|ps0: Seq<Piece>|
                        #[trigger] parsed_ok(pattern@, ps0) ==> skel_eq(
                            final(self).entries@[h as int].pieces@,
                            ps0,
                        ) && inserted_entry_ok(
                            old(self).entries@,
                            final(self).entries@[h as int],
                            ps0,
                            id@,
                        )
                    &&& !has_bad_token(pattern@)
                },
                Err(e) => {
                    &&& *final(self) == *old(self)
                    &&& parse_fails_at(pattern@, e.offset as int)
                    &&& has_bad_token(pattern@)
                },
            },
    {
        let parsed = parse(pattern);
        let mut ps = match parsed {
            Ok(ps) => ps,
            Err(e) => {
                return Err(e);
            },
        };
        let ghost ps0 = ps@;
        // bind each parameter under the name of the slot it falls on
        let mut i: usize = 0;
        while i < ps.len()
            invariant
                i <= ps@.len(),
                ps@.len() == ps0.len(),
                self == old(self),
                forall|q: int| 0 <= q < ps0.len() ==> #[trigger] same_shape_at(ps@, ps0, q),
                forall|q: int| i <= q < ps0.len() ==> ps@[q] == ps0[q],
                forall|q: int|
                    0 <= q < i && ps0[q] is Parameter ==> #[trigger] piece_name(ps@[q])
                        == effective_name(old(self).entries@, ps0, q),
            decreases ps@.len() - i,
        {
            let ghost pre = ps@;
            let is_param = match &ps[i] {
                Piece::Parameter(_) => true,
                Piece::Literal(_) => false,
            };
            if is_param {
                proof {
                    lemma_slot_name_shape(self.entries@, ps@, ps0, i as int);
                }
                match find_slot_name(&self.entries, &ps, i) {
                    Some(nm) => {
                        let newp = match &ps[i] {
                            Piece::Parameter(Position::Named(_)) => Piece::Parameter(
                                Position::Named(nm),
                            ),
                            Piece::Parameter(Position::Indexed(ix, _)) => Piece::Parameter(
                                Position::Indexed(*ix, nm),
                            ),
                            Piece::Literal(_) => Piece::Literal(nm),
                        };
                        ps[i] = newp;
                        proof {
                            assert forall|q: int| 0 <= q < ps0.len() implies #[trigger] same_shape_at(
                                ps@,
                                ps0,
                                q,
                            ) by {
                                assert(same_shape_at(pre, ps0, q));
                                if q != i {
                                    assert(ps@[q] == pre[q]);
                                }
                            }
                        }
                    },
                    None => {
                        proof {
                            assert(piece_name(ps@[i as int]) == effective_name(
                                old(self).entries@,
                                ps0,
                                i as int,
                            ));
                        }
                    },
                }
            }
            i = i + 1;
        }
        let ghost eff = ps@;
        // overwrite any live route of equal structure
        let total = self.entries.len();
        let mut k: usize = 0;
        while k < total
            invariant
                k <= total,
                total == self.entries@.len(),
                ps@ == eff,
                self.entries@.len() == old(self).entries@.len(),
                forall|z: int|
                    #![trigger self.entries@[z]]
                    0 <= z < total ==> {
                        &&& self.entries@[z].pieces == old(self).entries@[z].pieces
                        &&& self.entries@[z].id == old(self).entries@[z].id
                    },
                forall|z: int|
                    #![trigger self.entries@[z]]
                    0 <= z < k ==> self.entries@[z].live == (old(self).entries@[z].live
                        && !skel_eq(old(self).entries@[z].pieces@, eff)),
                forall|z: int|
                    #![trigger self.entries@[z]]
                    k <= z < total ==> self.entries@[z].live == old(self).entries@[z].live,
            decreases total - k,
        {
            let kill = self.entries[k].live && skel_eq_exec(&self.entries[k].pieces, &ps);
            if kill {
                self.entries[k].live = false;
            }
            k = k + 1;
        }
        let h = self.entries.len();
        self.entries.push(Entry { pieces: ps, id: id.to_owned(), live: true });
        proof {
            let oe = old(self).entries@;
            let ne = self.entries@;
            assert(ne[h as int].pieces@ == eff);
            assert(parsed_ok(pattern@, ps0));
            assert(skel_eq(eff, ps0)) by {
                assert forall|q: int| 0 <= q < eff.len() implies #[trigger] skel_eq_at(
                    eff,
                    ps0,
                    q,
                ) by {
                    assert(same_shape_at(eff, ps0, q));
                    assert(is_wild_at(eff, q) == is_wild_at(ps0, q));
                }
            }
            assert(inserted_entry_ok(oe, ne[h as int], ps0, id@));
            assert forall|w: Seq<Piece>| #[trigger] parsed_ok(pattern@, w) implies skel_eq(
                ne[h as int].pieces@,
                w,
            ) && inserted_entry_ok(oe, ne[h as int], w, id@) by {
                lemma_parse_unambiguous(pattern@, ps0, w);
                lemma_agree_is_shape(ps0, w);
                lemma_skel_eq_shape(eff, ps0, w);
                assert forall|q: int| 0 <= q < w.len() implies #[trigger] same_shape_at(
                    ne[h as int].pieces@,
                    w,
                    q,
                ) by {
                    assert(same_shape_at(eff, ps0, q));
                    assert(pieces_agree(ps0[q], w[q]));
                }
                assert forall|q: int|
                    0 <= q < w.len() && w[q] is Parameter implies #[trigger] piece_name(
                    ne[h as int].pieces@[q],
                ) == effective_name(oe, w, q) by {
                    assert(pieces_agree(ps0[q], w[q]));
                    assert(ps0[q] is Parameter);
                    lemma_slot_name_shape(oe, ps0, w, q);
                    assert(piece_name(ps0[q]) == piece_name(w[q]));
                    assert(piece_name(ne[h as int].pieces@[q]) == effective_name(oe, ps0, q));
                }
                assert(inserted_entry_ok(oe, ne[h as int], w, id@));
            }
            assert(self.wf()) by {
                assert forall|k1: int, k2: int|
                    #![trigger ne[k1], ne[k2]]
                    0 <= k1 < k2 < ne.len() && ne[k1].live && ne[k2].live implies !skel_eq(
                    ne[k1].pieces@,
                    ne[k2].pieces@,
                ) by {
                    if k2 < h {
                        assert(oe[k1].live && oe[k2].live);
                    } else {
                        // the new route against a surviving old one
                        assert(ne[k1].live ==> !skel_eq(oe[k1].pieces@, eff));
                    }
                }
            }
        }
        Ok(h)
    }

    /// Finds the best live route matching the path: among the matching
    /// routes, the one whose mode word is lexicographically least —
    /// literal text beats a parameter beats the wildcard at the first
    /// differing position — the earliest such route when equal.  Returns
    /// its identifier and bindings, or nothing when no live route
    /// matches.
    pub fn find(&self, path: &str) -> (r: Option<MatchResult>)
        ensures
            r is None ==> forall|k: int|
                0 <= k < self.entries@.len() ==> !(#[trigger] self.entry_matches(k, path@)),
            r matches Some(m) ==> exists|k: int|
                {
                    &&& #[trigger] self.best_at(k, path@)
                    &&& m.id@ == self.entries@[k].id@
                    &&& bind_views(m.params@) == pattern_captures(
                        self.entries@[k].pieces@,
                        path@,
                    )
                },
    {
        let mut found = false;
        let mut bidx: usize = 0;
        let mut bbinds: Vec<(String, String)> = Vec::new();
        let mut bmodes: Vec<u8> = Vec::new();
        let mut k: usize = 0;
        while k < self.entries.len()
            invariant
                k <= self.entries@.len(),
                !found ==> forall|z: int|
                    0 <= z < k ==> !(#[trigger] self.entry_matches(z, path@)),
                found ==> {
                    &&& bidx < k
                    &&& self.entry_matches(bidx as int, path@)
                    &&& bind_views(bbinds@) == pattern_captures(
                        self.entries@[bidx as int].pieces@,
                        path@,
                    )
                    &&& mode_views(bmodes@) == self.entry_modes(bidx as int, path@)
                    &&& forall|z: int|
                        #[trigger] self.entry_matches(z, path@) && 0 <= z < k && z != bidx
                            ==> if z < bidx {
                            lex_lt(self.entry_modes(bidx as int, path@), self.entry_modes(z, path@))
                        } else {
                            !lex_lt(
                                self.entry_modes(z, path@),
                                self.entry_modes(bidx as int, path@),
                            )
                        }
                },
            decreases self.entries@.len() - k,
        {
            let ent = &self.entries[k];
            if ent.live {
                match match_pattern(&ent.pieces, path) {
                    Some(bm) => {
                        let (nbinds, nmodes) = bm;
                        let better = if !found {
                            true
                        } else {
                            lex_less(&nmodes, &bmodes)
                        };
                        proof {
                            lemma_modes_len(ent.pieces@, 0, path@, 0);
                            if found {
                                lemma_modes_len(
                                    self.entries@[bidx as int].pieces@,
                                    0,
                                    path@,
                                    0,
                                );
                            }
                        }
                        if better {
                            proof {
                                if found {
                                    // the old best and every route it beat stay beaten
                                    assert forall|z: int|
                                        #[trigger] self.entry_matches(z, path@) && 0 <= z < k
                                            && z != k as int implies lex_lt(
                                        self.entry_modes(k as int, path@),
                                        self.entry_modes(z, path@),
                                    ) by {
                                        lemma_modes_len(self.entries@[z].pieces@, 0, path@, 0);
                                        if z != bidx {
                                            if z < bidx {
                                                lemma_lex_trans(
                                                    self.entry_modes(k as int, path@),
                                                    self.entry_modes(bidx as int, path@),
                                                    self.entry_modes(z, path@),
                                                );
                                            } else {
                                                lemma_lex_connex(
                                                    self.entry_modes(z, path@),
                                                    self.entry_modes(bidx as int, path@),
                                                );
                                                if lex_lt(
                                                    self.entry_modes(bidx as int, path@),
                                                    self.entry_modes(z, path@),
                                                ) {
                                                    lemma_lex_trans(
                                                        self.entry_modes(k as int, path@),
                                                        self.entry_modes(bidx as int, path@),
                                                        self.entry_modes(z, path@),
                                                    );
                                                }
                                            }
                                        }
                                    }
                                }
                            }
                            found = true;
                            bidx = k;
                            bbinds = nbinds;
                            bmodes = nmodes;
                        }
                    },
                    None => {},
                }
            }
            k = k + 1;
        }
        if found {
            let ent = &self.entries[bidx];
            let id = ent.id.clone();
            proof {
                assert(self.best_at(bidx as int, path@));
            }
            Some(MatchResult { id, params: bbinds })
        } else {
            None
        }
    }

    /// Counts the live routes, by a full traversal of the table.
    pub fn count(&self) -> (r: usize)
        ensures
            r as nat == live_count(self.entries@),
    {
        let mut c: usize = 0;
        let mut k: usize = 0;
        proof {
            assert(self.entries@.take(0) =~= Seq::<Entry>::empty());
        }
        while k < self.entries.len()
            invariant
                k <= self.entries@.len(),
                c <= k,
                c as nat == live_count(self.entries@.take(k as int)),
            decreases self.entries@.len() - k,
        {
            proof {
                assert(self.entries@.take(k as int + 1).drop_last() =~= self.entries@.take(
                    k as int,
                ));
                assert(self.entries@.take(k as int + 1).last() == self.entries@[k as int]);
            }
            if self.entries[k].live {
                c = c + 1;
            }
            k = k + 1;
        }
        proof {
            assert(self.entries@.take(self.entries@.len() as int) =~= self.entries@);
        }
        c
    }

    /// Lists the live routes, one (pattern text, identifier) pair per
    /// route, in table traversal order.  Each call walks the table
    /// afresh.
    pub fn routes(&self) -> (r: Vec<(String, String)>)
        ensures
            r@.map_values(|pr: (String, String)| (pr.0@, pr.1@)) == live_routes_of(
                self.entries@,
            ),
    {
        let mut out: Vec<(String, String)> = Vec::new();
        let mut k: usize = 0;
        proof {
            assert(self.entries@.take(0) =~= Seq::<Entry>::empty());
            assert(out@.map_values(|pr: (String, String)| (pr.0@, pr.1@)) =~= live_routes_of(
                self.entries@.take(0),
            ));
        }
        while k < self.entries.len()
            invariant
                k <= self.entries@.len(),
                out@.map_values(|pr: (String, String)| (pr.0@, pr.1@)) == live_routes_of(
                    self.entries@.take(k as int),
                ),
            decreases self.entries@.len() - k,
        {
            let ghost pre = out@;
            proof {
                assert(self.entries@.take(k as int + 1).drop_last() =~= self.entries@.take(
                    k as int,
                ));
                assert(self.entries@.take(k as int + 1).last() == self.entries@[k as int]);
            }
            let ent = &self.entries[k];
            if ent.live {
                out.push((pieces_to_string(&ent.pieces), ent.id.clone()));
                proof {
                    assert(out@.map_values(|pr: (String, String)| (pr.0@, pr.1@)) =~= pre.map_values(
                        |pr: (String, String)| (pr.0@, pr.1@),
                    ).push((flat(ent.pieces@), ent.id@)));
                }
            }
            k = k + 1;
        }
        proof {
            assert(self.entries@.take(self.entries@.len() as int) =~= self.entries@);
        }
        out
    }

    /// Resolves a handle to the pattern text stored for it (with the
    /// effective parameter names) and its identifier.
    pub fn route_pattern(&self, handle: usize) -> (r: Option<(String, String)>)
        ensures
            handle < self.entries@.len() ==> (r matches Some(pi) && pi.0@ == flat(
                self.entries@[handle as int].pieces@,
            ) && pi.1@ == self.entries@[handle as int].id@),
            handle >= self.entries@.len() ==> r is None,
    {
        if handle < self.entries.len() {
            let ent = &self.entries[handle];
            Some((pieces_to_string(&ent.pieces), ent.id.clone()))
        } else {
            None
        }
    }

    /// A diagnostic rendering of the table: exactly the text of
    /// `render_lines`, one line per route ever inserted, in table order.
    /// Each line shows the stored pattern text — the effective parameter
    /// names, so a name overridden by the conflict policy is surfaced
    /// here — then ` => ` and the route's identifier, with
    /// ` (overwritten)` appended on every row that is no longer live.
    /// The format is for diagnostics; a later version may choose another
    /// (and change this contract with it).
    pub fn render(&self) -> (r: String)
        ensures
            r@ == render_lines(self.entries@),
    {
        let mut out = String::new();
        let mut k: usize = 0;
        proof {
            assert(self.entries@.take(0) =~= Seq::<Entry>::empty());
        }
        while k < self.entries.len()
            invariant
                k <= self.entries@.len(),
                out@ == render_lines(self.entries@.take(k as int)),
            decreases self.entries@.len() - k,
        {
            let ghost pre = out@;
            proof {
                assert(self.entries@.take(k as int + 1).drop_last() =~= self.entries@.take(
                    k as int,
                ));
                assert(self.entries@.take(k as int + 1).last() == self.entries@[k as int]);
                reveal_strlit(" => ");
                reveal_strlit(" (overwritten)");
                reveal_strlit("\n");
                assert(" => "@ =~= arrow_text());
                assert(" (overwritten)"@ =~= overwritten_text());
                assert("\n"@ =~= seq!['\n']);
            }
            let ent = &self.entries[k];
            let pat = pieces_to_string(&ent.pieces);
            out.append(pat.as_str());
            out.append(" => ");
            out.append(ent.id.as_str());
            if !ent.live {
                out.append(" (overwritten)");
            }
            out.append("\n");
            proof {
                assert(out@ =~= pre.add(render_line(self.entries@[k as int])));
                assert(out@ =~= render_lines(self.entries@.take(k as int + 1)));
            }
            k = k + 1;
        }
        proof {
            assert(self.entries@.take(self.entries@.len() as int) =~= self.entries@);
        }
        out
    }
}

} // verus!
