//! The per-symbol order book and its continuity state machine.
//!
//! A book is seeded from a REST snapshot and then advanced by depth events
//! under the venue's continuity rule: the first event after a seed must
//! straddle `snapshot_id + 1`, and every later event must chain through
//! `pu == last_u`.  `continuity_check` decides, for each incoming event,
//! whether to drop it, apply it, or resync from a fresh snapshot.

use vstd::prelude::*;

use crate::depth::{DepthSnapshot, DepthUpdate, ResyncNeeded, UpdateDecision};
use crate::numeric;
use crate::text;

verus! {

/// One side of a book: price levels as `(price, quantity)` fixed-point
/// pairs, strictly ascending in price, every quantity positive.
pub open spec fn side_wf(s: Seq<(u64, u64)>) -> bool {
    &&& forall|i: int, j: int| 0 <= i < j < s.len() ==> s[i].0 < s[j].0
    &&& forall|i: int| 0 <= i < s.len() ==> s[i].1 > 0
}

/// The finite map a side represents: price to quantity.
pub open spec fn side_map(s: Seq<(u64, u64)>) -> Map<u64, u64>
    decreases s.len(),
{
    if s.len() == 0 {
        Map::empty()
    } else {
        side_map(s.drop_last()).insert(s.last().0, s.last().1)
    }
}

/// `s` holds a level at price `p`.
pub open spec fn side_has_key(s: Seq<(u64, u64)>, p: u64) -> bool {
    exists|i: int| 0 <= i < s.len() && s[i].0 == p
}

/// One price-level change: a zero quantity removes the level, anything
/// else overwrites it.
pub open spec fn apply_level(m: Map<u64, u64>, p: u64, q: u64) -> Map<u64, u64> {
    if q == 0 {
        m.remove(p)
    } else {
        m.insert(p, q)
    }
}

/// Folds a list of `(price, quantity)` changes over a map.  With
/// `zero_removes` a zero quantity deletes the price (delta semantics);
/// without it a zero quantity is skipped (snapshot semantics).
pub open spec fn fold_levels(m: Map<u64, u64>, ls: Seq<(u64, u64)>, zero_removes: bool) -> Map<
    u64,
    u64,
>
    decreases ls.len(),
{
    if ls.len() == 0 {
        m
    } else {
        let stepped = if ls[0].1 == 0 && !zero_removes {
            m
        } else {
            apply_level(m, ls[0].0, ls[0].1)
        };
        fold_levels(stepped, ls.drop_first(), zero_removes)
    }
}

/// Every price and quantity string of `ls` parses as a fixed-point value.
pub open spec fn levels_ok(ls: Seq<(String, String)>) -> bool {
    forall|i: int|
        0 <= i < ls.len() ==> numeric::parse_fixed_spec(#[trigger] ls[i].0@) is Some
            && numeric::parse_fixed_spec(ls[i].1@) is Some
}

/// The fixed-point values of one parsed level.
pub open spec fn parsed_level(l: (String, String)) -> (u64, u64) {
    (numeric::parse_fixed_spec(l.0@)->0, numeric::parse_fixed_spec(l.1@)->0)
}

/// The fixed-point values of a whole level list.
pub open spec fn parsed_levels(ls: Seq<(String, String)>) -> Seq<(u64, u64)> {
    ls.map_values(|l: (String, String)| parsed_level(l))
}

/// A sorted order book for one symbol.
///
/// Prices and quantities are fixed-point integers (see the numeric module);
/// `bids` and `asks` are kept ascending by price, so the best bid is the
/// last bid level and the best ask is the first ask level.
#[derive(Debug, Clone)]
pub struct OrderBook {
    pub symbol: String,
    pub bids: Vec<(u64, u64)>,
    pub asks: Vec<(u64, u64)>,
    pub last_u: Option<u64>,
    pub snapshot_id: Option<u64>,
    pub depth: u16,
}

/// The event is in sequence for a book in the given state: with a seeded
/// book awaiting alignment it must straddle `snapshot_id + 1`; with a
/// running book it must chain through the previous final id.
pub open spec fn event_applies(
    snapshot_id: Option<u64>,
    last_u: Option<u64>,
    first: u64,
    last: u64,
    prev: u64,
) -> bool {
    match snapshot_id {
        Option::None => false,
        Option::Some(s) => match last_u {
            Option::None => first <= s + 1 && s + 1 <= last,
            Option::Some(p) => prev == p,
        },
    }
}

/// The event predates the book's state and is ignored: it ends before the
/// alignment target, or chains to an id older than the last one applied.
pub open spec fn event_stale(
    snapshot_id: Option<u64>,
    last_u: Option<u64>,
    first: u64,
    last: u64,
    prev: u64,
) -> bool {
    match snapshot_id {
        Option::None => false,
        Option::Some(s) => match last_u {
            Option::None => !(first <= s + 1 && s + 1 <= last) && first <= s + 1,
            Option::Some(p) => prev < p,
        },
    }
}

proof fn lemma_side_wf_drop_last(s: Seq<(u64, u64)>)
    requires
        side_wf(s),
        s.len() > 0,
    ensures
        side_wf(s.drop_last()),
{
    assert(forall|i: int| 0 <= i < s.len() - 1 ==> s.drop_last()[i] == s[i]);
}

/// A side's map contains exactly the prices its levels carry.
proof fn lemma_side_map_dom(s: Seq<(u64, u64)>)
    ensures
        forall|p: u64| #[trigger] side_map(s).contains_key(p) <==> side_has_key(s, p),
    decreases s.len(),
{
    if s.len() == 0 {
    } else {
        let dl = s.drop_last();
        lemma_side_map_dom(dl);
        assert forall|p: u64| #[trigger] side_map(s).contains_key(p) <==> side_has_key(s, p) by {
            if side_map(s).contains_key(p) {
                if p == s.last().0 {
                    assert(s[s.len() - 1].0 == p);
                } else {
                    assert(side_map(dl).contains_key(p));
                    assert(side_has_key(dl, p));
                    let i = choose|i: int| 0 <= i < dl.len() && dl[i].0 == p;
                    assert(dl[i] == s[i]);
                    assert(s[i].0 == p);
                }
            }
            if side_has_key(s, p) {
                let i = choose|i: int| 0 <= i < s.len() && s[i].0 == p;
                if i < s.len() - 1 {
                    assert(dl[i].0 == p);
                    assert(side_has_key(dl, p));
                }
            }
        }
    }
}

/// In a well-formed side, the map sends each level's price to its quantity.
proof fn lemma_side_map_at(s: Seq<(u64, u64)>, i: int)
    requires
        side_wf(s),
        0 <= i < s.len(),
    ensures
        side_map(s).contains_key(s[i].0),
        side_map(s)[s[i].0] == s[i].1,
    decreases s.len(),
{
    let dl = s.drop_last();
    if i == s.len() - 1 {
    } else {
        lemma_side_wf_drop_last(s);
        lemma_side_map_at(dl, i);
        assert(s[i].0 < s[s.len() - 1].0);
    }
}

/// Inserting a fresh level at its sorted position inserts its price in
/// the map.
proof fn lemma_side_insert(s: Seq<(u64, u64)>, pos: int, p: u64, q: u64)
    requires
        side_wf(s),
        0 <= pos <= s.len(),
        forall|j: int| 0 <= j < pos ==> s[j].0 < p,
        forall|j: int| pos <= j < s.len() ==> s[j].0 > p,
        q > 0,
    ensures
        side_wf(s.insert(pos, (p, q))),
        side_map(s.insert(pos, (p, q))) == side_map(s).insert(p, q),
{
    let ns = s.insert(pos, (p, q));
    assert(forall|j: int| 0 <= j < pos ==> ns[j] == s[j]);
    assert(forall|j: int| pos < j < ns.len() ==> ns[j] == s[j - 1]);
    assert(ns[pos] == (p, q));
    assert(side_wf(ns));
    lemma_side_map_dom(s);
    lemma_side_map_dom(ns);
    assert forall|r: u64| #[trigger] side_map(ns).contains_key(r) implies side_map(s).insert(
        p,
        q,
    ).contains_key(r) by {
        let i = choose|i: int| 0 <= i < ns.len() && ns[i].0 == r;
        if i != pos {
            let j: int = if i < pos {
                i
            } else {
                i - 1
            };
            assert(s[j].0 == r);
            assert(side_has_key(s, r));
        }
    }
    assert forall|r: u64| #[trigger] side_map(s).insert(p, q).contains_key(r) implies side_map(
        ns,
    ).contains_key(r) by {
        if r == p {
            assert(ns[pos].0 == r);
        } else {
            let i = choose|i: int| 0 <= i < s.len() && s[i].0 == r;
            let j: int = if i < pos {
                i
            } else {
                i + 1
            };
            assert(ns[j].0 == r);
        }
        assert(side_has_key(ns, r));
    }
    assert forall|r: u64| #[trigger] side_map(ns).contains_key(r) implies side_map(ns)[r]
        == side_map(s).insert(p, q)[r] by {
        let i = choose|i: int| 0 <= i < ns.len() && ns[i].0 == r;
        lemma_side_map_at(ns, i);
        if i == pos {
            assert(side_map(ns)[r] == q);
        } else {
            let j: int = if i < pos {
                i
            } else {
                i - 1
            };
            assert(s[j] == ns[i]);
            lemma_side_map_at(s, j);
        }
    }
    assert(side_map(ns) =~= side_map(s).insert(p, q));
}

/// Overwriting the level at `pos` updates its price's entry in the map.
proof fn lemma_side_update(s: Seq<(u64, u64)>, pos: int, q: u64)
    requires
        side_wf(s),
        0 <= pos < s.len(),
        q > 0,
    ensures
        side_wf(s.update(pos, (s[pos].0, q))),
        side_map(s.update(pos, (s[pos].0, q))) == side_map(s).insert(s[pos].0, q),
{
    let p = s[pos].0;
    let ns = s.update(pos, (p, q));
    assert(forall|j: int| 0 <= j < ns.len() && j != pos ==> ns[j] == s[j]);
    assert(ns[pos] == (p, q));
    assert(side_wf(ns));
    lemma_side_map_dom(s);
    lemma_side_map_dom(ns);
    assert forall|r: u64| #[trigger] side_map(ns).contains_key(r) implies side_map(s).insert(
        p,
        q,
    ).contains_key(r) by {
        let i = choose|i: int| 0 <= i < ns.len() && ns[i].0 == r;
        assert(s[i].0 == r);
        assert(side_has_key(s, r));
    }
    assert forall|r: u64| #[trigger] side_map(s).insert(p, q).contains_key(r) implies side_map(
        ns,
    ).contains_key(r) by {
        if r == p {
            assert(ns[pos].0 == r);
        } else {
            let i = choose|i: int| 0 <= i < s.len() && s[i].0 == r;
            assert(ns[i].0 == r);
        }
        assert(side_has_key(ns, r));
    }
    assert forall|r: u64| #[trigger] side_map(ns).contains_key(r) implies side_map(ns)[r]
        == side_map(s).insert(p, q)[r] by {
        let i = choose|i: int| 0 <= i < ns.len() && ns[i].0 == r;
        lemma_side_map_at(ns, i);
        if i == pos {
            assert(side_map(ns)[r] == q);
        } else {
            assert(s[i] == ns[i]);
            lemma_side_map_at(s, i);
            assert(s[i].0 != p);
        }
    }
    assert(side_map(ns) =~= side_map(s).insert(p, q));
}

/// Removing the level at `pos` removes its price from the map.
proof fn lemma_side_remove(s: Seq<(u64, u64)>, pos: int)
    requires
        side_wf(s),
        0 <= pos < s.len(),
    ensures
        side_wf(s.remove(pos)),
        side_map(s.remove(pos)) == side_map(s).remove(s[pos].0),
{
    let p = s[pos].0;
    let ns = s.remove(pos);
    assert(forall|j: int| 0 <= j < pos ==> ns[j] == s[j]);
    assert(forall|j: int| pos <= j < ns.len() ==> ns[j] == s[j + 1]);
    assert(side_wf(ns));
    lemma_side_map_dom(s);
    lemma_side_map_dom(ns);
    assert forall|r: u64| #[trigger] side_map(ns).contains_key(r) implies side_map(s).remove(
        p,
    ).contains_key(r) by {
        let i = choose|i: int| 0 <= i < ns.len() && ns[i].0 == r;
        let j: int = if i < pos {
            i
        } else {
            i + 1
        };
        assert(s[j].0 == r);
        assert(side_has_key(s, r));
        if r == p {
            assert(s[j].0 == s[pos].0 && j != pos);
            assert(false);
        }
    }
    assert forall|r: u64| #[trigger] side_map(s).remove(p).contains_key(r) implies side_map(
        ns,
    ).contains_key(r) by {
        let i = choose|i: int| 0 <= i < s.len() && s[i].0 == r;
        assert(i != pos);
        let j: int = if i < pos {
            i
        } else {
            i - 1
        };
        assert(ns[j].0 == r);
        assert(side_has_key(ns, r));
    }
    assert forall|r: u64| #[trigger] side_map(ns).contains_key(r) implies side_map(ns)[r]
        == side_map(s).remove(p)[r] by {
        let i = choose|i: int| 0 <= i < ns.len() && ns[i].0 == r;
        lemma_side_map_at(ns, i);
        let j: int = if i < pos {
            i
        } else {
            i + 1
        };
        assert(s[j] == ns[i]);
        lemma_side_map_at(s, j);
    }
    assert(side_map(ns) =~= side_map(s).remove(p));
}

/// Removing a price that no level carries leaves the map unchanged.
proof fn lemma_side_remove_absent(s: Seq<(u64, u64)>, p: u64)
    requires
        !side_has_key(s, p),
    ensures
        side_map(s).remove(p) == side_map(s),
{
    lemma_side_map_dom(s);
    assert(!side_map(s).contains_key(p));
    assert(side_map(s).remove(p) =~= side_map(s));
}

/// Folding one more level steps the fold by that level.
proof fn lemma_fold_levels_snoc(m: Map<u64, u64>, ls: Seq<(u64, u64)>, x: (u64, u64), zr: bool)
    ensures
        fold_levels(m, ls.push(x), zr) == (if x.1 == 0 && !zr {
            fold_levels(m, ls, zr)
        } else {
            apply_level(fold_levels(m, ls, zr), x.0, x.1)
        }),
    decreases ls.len(),
{
    if ls.len() == 0 {
        assert(ls.push(x).drop_first() =~= Seq::<(u64, u64)>::empty());
        assert(ls.push(x)[0] == x);
        let stepped = if x.1 == 0 && !zr {
            m
        } else {
            apply_level(m, x.0, x.1)
        };
        assert(fold_levels(stepped, ls.push(x).drop_first(), zr) == stepped);
        assert(fold_levels(m, ls.push(x), zr) == stepped);
    } else {
        assert(ls.push(x).drop_first() =~= ls.drop_first().push(x));
        assert(ls.push(x)[0] == ls[0]);
        let stepped = if ls[0].1 == 0 && !zr {
            m
        } else {
            apply_level(m, ls[0].0, ls[0].1)
        };
        lemma_fold_levels_snoc(stepped, ls.drop_first(), x, zr);
    }
}

/// Snapshot folding over a positive-valued map keeps exactly the old
/// keys and the prices listed with a positive quantity.
proof fn lemma_seed_fold(m: Map<u64, u64>, ls: Seq<(u64, u64)>)
    requires
        forall|p: u64| #[trigger] m.contains_key(p) ==> m[p] > 0,
    ensures
        forall|p: u64|
            #[trigger] fold_levels(m, ls, false).contains_key(p) <==> (m.contains_key(p)
                || exists|i: int| 0 <= i < ls.len() && ls[i].0 == p && ls[i].1 > 0),
        forall|p: u64|
            #[trigger] fold_levels(m, ls, false).contains_key(p) ==> fold_levels(m, ls, false)[p]
                > 0,
    decreases ls.len(),
{
    if ls.len() == 0 {
    } else {
        let stepped = if ls[0].1 == 0 {
            m
        } else {
            m.insert(ls[0].0, ls[0].1)
        };
        let tail = ls.drop_first();
        assert(forall|p: u64| #[trigger] stepped.contains_key(p) ==> stepped[p] > 0);
        lemma_seed_fold(stepped, tail);
        assert(fold_levels(m, ls, false) == fold_levels(stepped, tail, false));
        assert forall|p: u64| #[trigger] fold_levels(m, ls, false).contains_key(p) implies (
        m.contains_key(p) || exists|i: int|
            0 <= i < ls.len() && ls[i].0 == p && ls[i].1 > 0) by {
            assert(fold_levels(stepped, tail, false).contains_key(p));
            if !m.contains_key(p) {
                if stepped.contains_key(p) {
                    assert(ls[0].0 == p && ls[0].1 > 0);
                } else {
                    assert(exists|i: int| 0 <= i < tail.len() && tail[i].0 == p && tail[i].1 > 0);
                    let i = choose|i: int| 0 <= i < tail.len() && tail[i].0 == p && tail[i].1 > 0;
                    assert(tail[i] == ls[i + 1]);
                    assert(ls[i + 1].0 == p && ls[i + 1].1 > 0);
                }
            }
        }
        assert forall|p: u64| (m.contains_key(p) || exists|i: int|
            0 <= i < ls.len() && ls[i].0 == p && ls[i].1 > 0) implies #[trigger] fold_levels(
            m,
            ls,
            false,
        ).contains_key(p) by {
            if m.contains_key(p) {
                assert(stepped.contains_key(p));
            } else {
                let i = choose|i: int| 0 <= i < ls.len() && ls[i].0 == p && ls[i].1 > 0;
                if i == 0 {
                    assert(stepped.contains_key(p));
                } else {
                    assert(tail[i - 1] == ls[i]);
                    assert(tail[i - 1].0 == p && tail[i - 1].1 > 0);
                    assert(exists|j: int| 0 <= j < tail.len() && tail[j].0 == p && tail[j].1 > 0);
                }
            }
            assert(fold_levels(stepped, tail, false).contains_key(p));
        }
    }
}

/// Law: the seeded book round-trips the snapshot.  A price is in the
/// seeded side exactly when the snapshot lists it with a positive
/// quantity, and every seeded quantity is positive: seeding and applying
/// zero events reproduces the snapshot's non-zero levels.
pub proof fn lemma_seed_round_trip(ls: Seq<(u64, u64)>)
    ensures
        forall|p: u64|
            #[trigger] fold_levels(Map::<u64, u64>::empty(), ls, false).contains_key(p) <==> exists|
                i: int,
            | 0 <= i < ls.len() && ls[i].0 == p && ls[i].1 > 0,
        forall|p: u64|
            #[trigger] fold_levels(Map::<u64, u64>::empty(), ls, false).contains_key(p)
                ==> fold_levels(Map::<u64, u64>::empty(), ls, false)[p] > 0,
{
    lemma_seed_fold(Map::<u64, u64>::empty(), ls);
}

/// Finds the first position whose price is not below `price`.
fn side_find(side: &Vec<(u64, u64)>, price: u64) -> (pos: usize)
    requires
        side_wf(side@),
    ensures
        pos <= side@.len(),
        forall|j: int| 0 <= j < pos ==> side@[j].0 < price,
        forall|j: int| pos <= j < side@.len() ==> side@[j].0 >= price,
{
    let n = side.len();
    let mut pos: usize = 0;
    while pos < n && side[pos].0 < price
        invariant
            n == side@.len(),
            side_wf(side@),
            0 <= pos <= n,
            forall|j: int| 0 <= j < pos ==> side@[j].0 < price,
        decreases n - pos,
    {
        pos = pos + 1;
    }
    pos
}

/// Applies one `(price, quantity)` change to a side: zero removes the
/// level, anything else inserts or overwrites it.
fn side_apply(side: &mut Vec<(u64, u64)>, price: u64, qty: u64)
    requires
        side_wf(old(side)@),
    ensures
        side_wf(final(side)@),
        side_map(final(side)@) == apply_level(side_map(old(side)@), price, qty),
{
    let ghost s0 = side@;
    let pos = side_find(side, price);
    let found = pos < side.len() && side[pos].0 == price;
    proof {
        if !found {
            assert forall|i: int| 0 <= i < s0.len() implies s0[i].0 != price by {
                if i >= pos {
                    assert(s0[i].0 >= price);
                    if i > pos as int {
                        assert(s0[pos as int].0 < s0[i].0);
                    }
                }
            }
        }
    }
    if qty == 0 {
        if found {
            proof {
                lemma_side_remove(s0, pos as int);
            }
            side.remove(pos);
        } else {
            proof {
                lemma_side_remove_absent(s0, price);
            }
        }
    } else {
        if found {
            let lvl = side.remove(pos);
            side.insert(pos, (lvl.0, qty));
            proof {
                assert(side@ =~= s0.update(pos as int, (s0[pos as int].0, qty)));
                lemma_side_update(s0, pos as int, qty);
            }
        } else {
            proof {
                lemma_side_insert(s0, pos as int, price, qty);
            }
            side.insert(pos, (price, qty));
        }
    }
}

/// Folds a whole level list over one side of a book.
fn side_fold(side: &mut Vec<(u64, u64)>, ls: &Vec<(String, String)>, zero_removes: bool)
    requires
        side_wf(old(side)@),
        levels_ok(ls@),
    ensures
        side_wf(final(side)@),
        side_map(final(side)@) == fold_levels(
            side_map(old(side)@),
            parsed_levels(ls@),
            zero_removes,
        ),
{
    let ghost m0 = side_map(side@);
    let mut i: usize = 0;
    while i < ls.len()
        invariant
            levels_ok(ls@),
            side_wf(side@),
            0 <= i <= ls@.len(),
            side_map(side@) == fold_levels(m0, parsed_levels(ls@).take(i as int), zero_removes),
        decreases ls@.len() - i,
    {
        let l = &ls[i];
        proof {
            assert(ls@[i as int].0@ == l.0@);
        }
        let p = match numeric::parse_fixed(l.0.as_str()) {
            Some(v) => v,
            None => {
                proof {
                    assert(false);
                }
                0
            },
        };
        let q = match numeric::parse_fixed(l.1.as_str()) {
            Some(v) => v,
            None => {
                proof {
                    assert(false);
                }
                0
            },
        };
        proof {
            assert(parsed_levels(ls@)[i as int] == parsed_level(ls@[i as int]));
            assert(parsed_levels(ls@).take(i + 1) =~= parsed_levels(ls@).take(i as int).push(
                parsed_levels(ls@)[i as int],
            ));
            lemma_fold_levels_snoc(
                m0,
                parsed_levels(ls@).take(i as int),
                parsed_levels(ls@)[i as int],
                zero_removes,
            );
        }
        if !(q == 0 && !zero_removes) {
            side_apply(side, p, q);
        }
        i = i + 1;
    }
    proof {
        assert(parsed_levels(ls@).take(ls@.len() as int) =~= parsed_levels(ls@));
    }
}

/// Decides whether every price and quantity string of a level list parses.
pub fn levels_parse(ls: &Vec<(String, String)>) -> (r: bool)
    ensures
        r == levels_ok(ls@),
{
    let mut i: usize = 0;
    while i < ls.len()
        invariant
            0 <= i <= ls@.len(),
            forall|j: int|
                0 <= j < i ==> numeric::parse_fixed_spec(#[trigger] ls@[j].0@) is Some
                    && numeric::parse_fixed_spec(ls@[j].1@) is Some,
        decreases ls@.len() - i,
    {
        let l = &ls[i];
        proof {
            assert(ls@[i as int].0@ == l.0@);
        }
        if numeric::parse_fixed(l.0.as_str()).is_none() {
            return false;
        }
        if numeric::parse_fixed(l.1.as_str()).is_none() {
            return false;
        }
        i = i + 1;
    }
    true
}

/// Law: consecutive accepted events chain exactly.  If a book accepts
/// `e1`, applies it (so `last_u == e1.u`), and then accepts `e2`, then
/// `e2.pu == e1.u`.
pub proof fn lemma_consecutive_applies(
    b: OrderBook,
    b1: OrderBook,
    e1: DepthUpdate,
    e2: DepthUpdate,
)
    requires
        b.wf(),
        event_applies(b.snapshot_id, b.last_u, e1.U, e1.u, e1.pu),
        b1.snapshot_id == b.snapshot_id,
        b1.last_u == Option::Some(e1.u),
        event_applies(b1.snapshot_id, b1.last_u, e2.U, e2.u, e2.pu),
    ensures
        e2.pu == e1.u,
{
}

impl OrderBook {
    /// Internal consistency: both sides sorted with positive quantities,
    /// and an applied update id only ever exists over a seeded book.
    pub open spec fn wf(self) -> bool {
        &&& side_wf(self.bids@)
        &&& side_wf(self.asks@)
        &&& (self.last_u is Some ==> self.snapshot_id is Some)
    }

    /// An empty, unseeded book for `symbol`, normalized upper-case.
    pub fn new(symbol: &str) -> (r: OrderBook)
        ensures
            r.symbol@ == symbol@.map_values(|c: char| text::upper_char(c)),
            r.bids@ =~= Seq::<(u64, u64)>::empty(),
            r.asks@ =~= Seq::<(u64, u64)>::empty(),
            r.last_u is None,
            r.snapshot_id is None,
            r.depth == 1000,
            r.wf(),
    {
        OrderBook {
            symbol: text::to_upper(symbol),
            bids: Vec::new(),
            asks: Vec::new(),
            last_u: None,
            snapshot_id: None,
            depth: 1000,
        }
    }

    /// Decides what to do with one incoming event, per the venue's
    /// continuity rule.  Mutates only `last_u`, and only to unset it when
    /// a resync is needed; applying the event is the caller's move.
    pub fn continuity_check(&mut self, du: &DepthUpdate) -> (d: UpdateDecision)
        requires
            old(self).wf(),
        ensures
            final(self).wf(),
            d is Apply <==> event_applies(
                old(self).snapshot_id, old(self).last_u, du.U, du.u, du.pu),
            d is Drop <==> event_stale(
                old(self).snapshot_id, old(self).last_u, du.U, du.u, du.pu),
            d is Resync <==> !event_applies(
                old(self).snapshot_id, old(self).last_u, du.U, du.u, du.pu)
                && !event_stale(
                old(self).snapshot_id, old(self).last_u, du.U, du.u, du.pu),
            d matches UpdateDecision::Resync(c) ==> {
                &&& c.symbol@ == old(self).symbol@
                &&& c.expected_pu == old(self).last_u
                &&& c.got_pu == du.pu
                &&& c.got_u == du.u
            },
            final(self).last_u == if d is Resync {
                Option::<u64>::None
            } else {
                old(self).last_u
            },
            final(self).symbol == old(self).symbol,
            final(self).bids == old(self).bids,
            final(self).asks == old(self).asks,
            final(self).snapshot_id == old(self).snapshot_id,
            final(self).depth == old(self).depth,
    {
        let s = match self.snapshot_id {
            None => {
                self.last_u = None;
                return UpdateDecision::Resync(ResyncNeeded {
                    symbol: self.symbol.clone(),
                    expected_pu: None,
                    got_pu: du.pu,
                    got_u: du.u,
                });
            },
            Some(s) => s,
        };

        match self.last_u {
            None => {
                if s == u64::MAX {
                    // The alignment target s + 1 exceeds every event id, so
                    // no event can straddle it and none can lie beyond it.
                    return UpdateDecision::Drop;
                }
                let target = s + 1;
                if du.U <= target && target <= du.u {
                    UpdateDecision::Apply
                } else if target < du.U {
                    self.last_u = None;
                    UpdateDecision::Resync(ResyncNeeded {
                        symbol: self.symbol.clone(),
                        expected_pu: None,
                        got_pu: du.pu,
                        got_u: du.u,
                    })
                } else {
                    UpdateDecision::Drop
                }
            },
            Some(prev) => {
                if du.pu == prev {
                    UpdateDecision::Apply
                } else if du.pu < prev {
                    UpdateDecision::Drop
                } else {
                    self.last_u = None;
                    UpdateDecision::Resync(ResyncNeeded {
                        symbol: self.symbol.clone(),
                        expected_pu: Some(prev),
                        got_pu: du.pu,
                        got_u: du.u,
                    })
                }
            },
        }
    }

    /// Rebuilds the book from a REST snapshot: both sides are replaced by
    /// the snapshot's levels with zero-quantity entries discarded,
    /// `snapshot_id` is set, and `last_u` becomes unset until the first
    /// delta aligns.
    pub fn from_snapshot(&mut self, snap: &DepthSnapshot)
        requires
            old(self).wf(),
            levels_ok(snap.bids@),
            levels_ok(snap.asks@),
        ensures
            final(self).wf(),
            side_map(final(self).bids@) == fold_levels(
                Map::<u64, u64>::empty(),
                parsed_levels(snap.bids@),
                false,
            ),
            side_map(final(self).asks@) == fold_levels(
                Map::<u64, u64>::empty(),
                parsed_levels(snap.asks@),
                false,
            ),
            final(self).snapshot_id == Option::Some(snap.last_update_id),
            final(self).last_u is None,
            final(self).symbol == old(self).symbol,
            final(self).depth == old(self).depth,
    {
        self.bids.clear();
        self.asks.clear();
        self.snapshot_id = Some(snap.last_update_id);
        self.last_u = None;
        side_fold(&mut self.bids, &snap.bids, false);
        side_fold(&mut self.asks, &snap.asks, false);
    }

    /// Applies one accepted depth event: every bid and ask change is
    /// folded into its side (zero quantity removes the level), and
    /// `last_u` advances to the event's final id.
    pub fn apply_update(&mut self, ev: &DepthUpdate)
        requires
            old(self).wf(),
            event_applies(old(self).snapshot_id, old(self).last_u, ev.U, ev.u, ev.pu),
            levels_ok(ev.b@),
            levels_ok(ev.a@),
        ensures
            final(self).wf(),
            side_map(final(self).bids@) == fold_levels(
                side_map(old(self).bids@),
                parsed_levels(ev.b@),
                true,
            ),
            side_map(final(self).asks@) == fold_levels(
                side_map(old(self).asks@),
                parsed_levels(ev.a@),
                true,
            ),
            final(self).last_u == Option::Some(ev.u),
            final(self).symbol == old(self).symbol,
            final(self).snapshot_id == old(self).snapshot_id,
            final(self).depth == old(self).depth,
    {
        side_fold(&mut self.bids, &ev.b, true);
        side_fold(&mut self.asks, &ev.a, true);
        self.last_u = Some(ev.u);
    }

    /// The highest-priced bid level, if any: levels are ascending, so it
    /// is the last one.
    pub fn best_bid(&self) -> (r: Option<(u64, u64)>)
        ensures
            r == if self.bids@.len() == 0 {
                Option::<(u64, u64)>::None
            } else {
                Option::Some(self.bids@.last())
            },
    {
        if self.bids.len() == 0 {
            None
        } else {
            Some(self.bids[self.bids.len() - 1])
        }
    }

    /// The lowest-priced ask level, if any: levels are ascending, so it
    /// is the first one.
    pub fn best_ask(&self) -> (r: Option<(u64, u64)>)
        ensures
            r == if self.asks@.len() == 0 {
                Option::<(u64, u64)>::None
            } else {
                Option::Some(self.asks@[0])
            },
    {
        if self.asks.len() == 0 {
            None
        } else {
            Some(self.asks[0])
        }
    }
}

/// Law: every price level a well-formed book stores carries a strictly
/// positive quantity; zero quantities only ever remove levels.
pub proof fn lemma_positive_quantities(b: OrderBook)
    requires
        b.wf(),
    ensures
        forall|i: int| 0 <= i < b.bids@.len() ==> b.bids@[i].1 > 0,
        forall|i: int| 0 <= i < b.asks@.len() ==> b.asks@[i].1 > 0,
{
}

} // verus!
