use vstd::prelude::*;

use crate::errors::ApplicationError;
use crate::types::{Order, PartialOrder, Receipt, Side};

verus! {

/// The resting orders at one price on one side of the book, earliest first.
#[derive(Clone, Debug)]
pub struct PriceLevel {
    pub price: u64,
    pub orders: Vec<PartialOrder>,
}

/// A price level as a mathematical value.
pub ghost struct LevelView {
    pub price: u64,
    pub orders: Seq<PartialOrder>,
}

impl View for PriceLevel {
    type V = LevelView;

    open spec fn view(&self) -> LevelView {
        LevelView { price: self.price, orders: self.orders@ }
    }
}

/// The levels of a book as mathematical values, in the book's order.
pub open spec fn book_view(b: Seq<PriceLevel>) -> Seq<LevelView> {
    b.map_values(|l: PriceLevel| l@)
}

/// The record of a maker filled by `qty`: the maker's fields, the traded quantity, nothing left.
pub open spec fn fill_record(maker: PartialOrder, qty: u64) -> PartialOrder {
    PartialOrder {
        price: maker.price,
        amount: qty,
        remaining: 0,
        side: maker.side,
        signer: maker.signer,
        ordinal: maker.ordinal,
    }
}

/// What stays of a maker after `qty` of it was traded; it keeps its ordinal.
pub open spec fn reduced(maker: PartialOrder, qty: u64) -> PartialOrder {
    PartialOrder {
        price: maker.price,
        amount: (maker.amount - qty) as u64,
        remaining: (maker.amount - qty) as u64,
        side: maker.side,
        signer: maker.signer,
        ordinal: maker.ordinal,
    }
}

/// A taker of `signer` with `left` to fill sweeps the orders of one level, earliest first.
/// Returns the match records, the orders that stay at the level, and what the taker has left.
/// The taker's own orders are passed over and keep their place.
pub open spec fn sweep_level(orders: Seq<PartialOrder>, signer: Seq<char>, left: u64) -> (
    Seq<PartialOrder>,
    Seq<PartialOrder>,
    u64,
)
    decreases orders.len(),
{
    if orders.len() == 0 || left == 0 {
        (Seq::empty(), orders, left)
    } else {
        let maker = orders[0];
        let rest = orders.drop_first();
        if maker.signer@ == signer {
            let (m, k, l) = sweep_level(rest, signer, left);
            (m, seq![maker] + k, l)
        } else if maker.amount <= left {
            let (m, k, l) = sweep_level(rest, signer, (left - maker.amount) as u64);
            (seq![fill_record(maker, maker.amount)] + m, k, l)
        } else {
            (seq![fill_record(maker, left)], seq![reduced(maker, left)] + rest, 0)
        }
    }
}

/// Whether a level at `level_price` on the opposite side is within the taker's limit:
/// a buyer takes asks at or below its price, a seller takes bids at or above it.
pub open spec fn crosses(taker: PartialOrder, level_price: u64) -> bool {
    match taker.side {
        Side::Buy => level_price <= taker.price,
        Side::Sell => level_price >= taker.price,
    }
}

/// A taker with `left` to fill sweeps the opposite book, best level first, while levels cross.
/// Returns the match records, the book afterwards (levels left empty are gone), and what the
/// taker has left.
pub open spec fn sweep_book(levels: Seq<LevelView>, taker: PartialOrder, left: u64) -> (
    Seq<PartialOrder>,
    Seq<LevelView>,
    u64,
)
    decreases levels.len(),
{
    if levels.len() == 0 || left == 0 || !crosses(taker, levels[0].price) {
        (Seq::empty(), levels, left)
    } else {
        let level = levels[0];
        let (m1, k1, l1) = sweep_level(level.orders, taker.signer@, left);
        let (m2, b2, l2) = sweep_book(levels.drop_first(), taker, l1);
        (
            m1 + m2,
            if k1.len() == 0 {
                b2
            } else {
                seq![LevelView { price: level.price, orders: k1 }] + b2
            },
            l2,
        )
    }
}

/// The orders of a level are well formed: at `price`, on `side`, not empty, with ordinals
/// strictly increasing and in `(lo, hi]`.
pub open spec fn orders_ok(s: Seq<PartialOrder>, price: u64, side: Side, lo: int, hi: int) -> bool {
    &&& forall|k: int|
        0 <= k < s.len() ==> {
            &&& (#[trigger] s[k]).price == price
            &&& s[k].side == side
            &&& s[k].amount > 0
            &&& lo < s[k].ordinal <= hi
        }
    &&& forall|a: int, b: int| 0 <= a < b < s.len() ==> (#[trigger] s[a]).ordinal < (#[trigger] s[b]).ordinal
}

/// On a book whose resting orders are on `side`, a level at `a` stands ahead of one at `b`:
/// bids highest first, asks lowest first.
pub open spec fn ahead(side: Side, a: u64, b: u64) -> bool {
    match side {
        Side::Buy => a > b,
        Side::Sell => a < b,
    }
}

/// Every level of `levels` stands behind a level at `p`.
pub open spec fn all_behind(levels: Seq<LevelView>, side: Side, p: u64) -> bool {
    forall|i: int| 0 <= i < levels.len() ==> ahead(side, p, (#[trigger] levels[i]).price)
}

/// A well-formed book of resting orders on `side`: levels strictly in priority order, none
/// empty, each holding well-formed orders at its price with ordinals up to `hi`.
pub open spec fn book_ok(levels: Seq<LevelView>, side: Side, hi: int) -> bool {
    &&& forall|a: int, b: int|
        0 <= a < b < levels.len() ==> ahead(side, (#[trigger] levels[a]).price, (#[trigger] levels[b]).price)
    &&& forall|i: int|
        0 <= i < levels.len() ==> (#[trigger] levels[i]).orders.len() > 0 && orders_ok(
            levels[i].orders,
            levels[i].price,
            side,
            0,
            hi,
        )
}

/// No level of the book is empty.
pub open spec fn no_empty_level(levels: Seq<LevelView>) -> bool {
    forall|i: int| 0 <= i < levels.len() ==> (#[trigger] levels[i]).orders.len() > 0
}

pub proof fn lemma_book_ok_drop_first(levels: Seq<LevelView>, side: Side, hi: int)
    requires
        book_ok(levels, side, hi),
        levels.len() > 0,
    ensures
        book_ok(levels.drop_first(), side, hi),
        all_behind(levels.drop_first(), side, levels[0].price),
{
    let rest = levels.drop_first();
    assert forall|a: int, b: int| 0 <= a < b < rest.len() implies ahead(
        side,
        (#[trigger] rest[a]).price,
        (#[trigger] rest[b]).price,
    ) by {
        assert(rest[a] == levels[a + 1] && rest[b] == levels[b + 1]);
    }
    assert forall|i: int| 0 <= i < rest.len() implies ahead(side, levels[0].price, (#[trigger] rest[i]).price) by {
        assert(rest[i] == levels[i + 1]);
    }
    assert forall|i: int| 0 <= i < rest.len() implies (#[trigger] rest[i]).orders.len() > 0 && orders_ok(
        rest[i].orders,
        rest[i].price,
        side,
        0,
        hi,
    ) by {
        assert(rest[i] == levels[i + 1]);
    }
}

/// Sweeping a book leaves only levels that were there before: what stood behind a price
/// still does.
pub proof fn lemma_sweep_book_behind(
    levels: Seq<LevelView>,
    taker: PartialOrder,
    left: u64,
    side: Side,
    p: u64,
)
    requires
        all_behind(levels, side, p),
    ensures
        all_behind(sweep_book(levels, taker, left).1, side, p),
    decreases levels.len(),
{
    if levels.len() == 0 || left == 0 || !crosses(taker, levels[0].price) {
    } else {
        let level = levels[0];
        let (m1, k1, l1) = sweep_level(level.orders, taker.signer@, left);
        let rest = levels.drop_first();
        assert forall|i: int| 0 <= i < rest.len() implies ahead(side, p, (#[trigger] rest[i]).price) by {
            assert(rest[i] == levels[i + 1]);
        }
        lemma_sweep_book_behind(rest, taker, l1, side, p);
        let b2 = sweep_book(rest, taker, l1).1;
        if k1.len() != 0 {
            let b = seq![LevelView { price: level.price, orders: k1 }] + b2;
            assert forall|i: int| 0 <= i < b.len() implies ahead(side, p, (#[trigger] b[i]).price) by {
                if i > 0 {
                    assert(b[i] == b2[i - 1]);
                }
            }
        }
    }
}

/// Sweeping a well-formed book keeps it well formed, trades exactly what the taker no longer
/// has left, and never matches the taker's own orders.
pub proof fn lemma_sweep_book(levels: Seq<LevelView>, taker: PartialOrder, left: u64, side: Side, hi: int)
    requires
        book_ok(levels, side, hi),
    ensures
        ({
            let (m, b, l) = sweep_book(levels, taker, left);
            &&& book_ok(b, side, hi)
            &&& total_amount(m) + l == left
            &&& l <= left
            &&& none_signed_by(m, taker.signer@)
        }),
    decreases levels.len(),
{
    if levels.len() == 0 || left == 0 || !crosses(taker, levels[0].price) {
    } else {
        let level = levels[0];
        let rest = levels.drop_first();
        lemma_sweep_level(level.orders, taker.signer@, left, level.price, side, 0, hi);
        let (m1, k1, l1) = sweep_level(level.orders, taker.signer@, left);
        lemma_book_ok_drop_first(levels, side, hi);
        lemma_sweep_book(rest, taker, l1, side, hi);
        lemma_sweep_book_behind(rest, taker, l1, side, level.price);
        let (m2, b2, l2) = sweep_book(rest, taker, l1);
        lemma_total_amount_append(m1, m2);
        let m = m1 + m2;
        assert forall|k: int| 0 <= k < m.len() implies (#[trigger] m[k]).signer@ != taker.signer@ by {
            if k < m1.len() {
                assert(m[k] == m1[k]);
            } else {
                assert(m[k] == m2[k - m1.len()]);
            }
        }
        if k1.len() != 0 {
            let b = seq![LevelView { price: level.price, orders: k1 }] + b2;
            assert forall|a: int, c: int| 0 <= a < c < b.len() implies ahead(
                side,
                (#[trigger] b[a]).price,
                (#[trigger] b[c]).price,
            ) by {
                assert(b[c] == b2[c - 1]);
                if a > 0 {
                    assert(b[a] == b2[a - 1]);
                }
            }
            assert forall|i: int| 0 <= i < b.len() implies (#[trigger] b[i]).orders.len() > 0 && orders_ok(
                b[i].orders,
                b[i].price,
                side,
                0,
                hi,
            ) by {
                if i > 0 {
                    assert(b[i] == b2[i - 1]);
                }
            }
        }
    }
}

/// The book of resting orders on `p.side` after `p` comes to rest on it: at the end of its
/// price level, or in a new level at its place in priority order.
pub open spec fn rest_order(levels: Seq<LevelView>, p: PartialOrder) -> Seq<LevelView>
    decreases levels.len(),
{
    if levels.len() == 0 {
        seq![LevelView { price: p.price, orders: seq![p] }]
    } else if levels[0].price == p.price {
        seq![LevelView { price: p.price, orders: levels[0].orders.push(p) }] + levels.drop_first()
    } else if ahead(p.side, levels[0].price, p.price) {
        seq![levels[0]] + rest_order(levels.drop_first(), p)
    } else {
        seq![LevelView { price: p.price, orders: seq![p] }] + levels
    }
}

pub proof fn lemma_book_ok_raise(levels: Seq<LevelView>, side: Side, hi: int, hi2: int)
    requires
        book_ok(levels, side, hi),
        hi <= hi2,
    ensures
        book_ok(levels, side, hi2),
{
    assert forall|i: int| 0 <= i < levels.len() implies (#[trigger] levels[i]).orders.len() > 0 && orders_ok(
        levels[i].orders,
        levels[i].price,
        side,
        0,
        hi2,
    ) by {
        let s = levels[i].orders;
        assert forall|k: int| 0 <= k < s.len() implies 0 < (#[trigger] s[k]).ordinal <= hi2 by {}
    }
}

/// Resting an order that is newer than every order of a well-formed book keeps the book well
/// formed; a level that stood behind `q` still does if the order's price does.
pub proof fn lemma_rest_order(levels: Seq<LevelView>, p: PartialOrder, hi: int, q: u64)
    requires
        book_ok(levels, p.side, hi),
        p.amount > 0,
        0 <= hi < p.ordinal,
    ensures
        book_ok(rest_order(levels, p), p.side, p.ordinal as int),
        all_behind(levels, p.side, q) && ahead(p.side, q, p.price) ==> all_behind(
            rest_order(levels, p),
            p.side,
            q,
        ),
    decreases levels.len(),
{
    let side = p.side;
    let hi2 = p.ordinal as int;
    lemma_book_ok_raise(levels, side, hi, hi2);
    let r = rest_order(levels, p);
    let single = LevelView { price: p.price, orders: seq![p] };
    assert(orders_ok(seq![p], p.price, side, 0, hi2));
    if levels.len() == 0 {
    } else if levels[0].price == p.price {
        lemma_book_ok_drop_first(levels, side, hi2);
        let o = levels[0].orders;
        let o2 = o.push(p);
        assert(orders_ok(o, p.price, side, 0, hi));
        assert forall|a: int, b: int| 0 <= a < b < o2.len() implies (#[trigger] o2[a]).ordinal
            < (#[trigger] o2[b]).ordinal by {
            if b < o.len() {
                assert(o2[a] == o[a] && o2[b] == o[b]);
            } else {
                assert(o2[a] == o[a]);
            }
        }
        assert forall|k: int| 0 <= k < o2.len() implies {
            &&& (#[trigger] o2[k]).price == p.price
            &&& o2[k].side == side
            &&& o2[k].amount > 0
            &&& 0 < o2[k].ordinal <= hi2
        } by {
            if k < o.len() {
                assert(o2[k] == o[k]);
            }
        }
        let rest = levels.drop_first();
        assert forall|a: int, b: int| 0 <= a < b < r.len() implies ahead(
            side,
            (#[trigger] r[a]).price,
            (#[trigger] r[b]).price,
        ) by {
            assert(r[b] == rest[b - 1]);
            if a > 0 {
                assert(r[a] == rest[a - 1]);
            }
        }
        assert forall|i: int| 0 <= i < r.len() implies (#[trigger] r[i]).orders.len() > 0 && orders_ok(
            r[i].orders,
            r[i].price,
            side,
            0,
            hi2,
        ) by {
            if i > 0 {
                assert(r[i] == rest[i - 1]);
            }
        }
        if all_behind(levels, side, q) && ahead(side, q, p.price) {
            assert forall|i: int| 0 <= i < r.len() implies ahead(side, q, (#[trigger] r[i]).price) by {
                if i > 0 {
                    assert(r[i] == rest[i - 1]);
                    assert(rest[i - 1] == levels[i]);
                }
            }
        }
    } else if ahead(side, levels[0].price, p.price) {
        lemma_book_ok_drop_first(levels, side, hi);
        let rest = levels.drop_first();
        lemma_rest_order(rest, p, hi, q);
        lemma_rest_order(rest, p, hi, levels[0].price);
        let r2 = rest_order(rest, p);
        assert forall|a: int, b: int| 0 <= a < b < r.len() implies ahead(
            side,
            (#[trigger] r[a]).price,
            (#[trigger] r[b]).price,
        ) by {
            assert(r[b] == r2[b - 1]);
            if a > 0 {
                assert(r[a] == r2[a - 1]);
            }
        }
        assert forall|i: int| 0 <= i < r.len() implies (#[trigger] r[i]).orders.len() > 0 && orders_ok(
            r[i].orders,
            r[i].price,
            side,
            0,
            hi2,
        ) by {
            if i > 0 {
                assert(r[i] == r2[i - 1]);
            }
        }
        if all_behind(levels, side, q) && ahead(side, q, p.price) {
            assert(all_behind(rest, side, q)) by {
                assert forall|i: int| 0 <= i < rest.len() implies ahead(side, q, (#[trigger] rest[i]).price) by {
                    assert(rest[i] == levels[i + 1]);
                }
            }
            assert forall|i: int| 0 <= i < r.len() implies ahead(side, q, (#[trigger] r[i]).price) by {
                if i > 0 {
                    assert(r[i] == r2[i - 1]);
                }
            }
        }
    } else {
        assert forall|a: int, b: int| 0 <= a < b < r.len() implies ahead(
            side,
            (#[trigger] r[a]).price,
            (#[trigger] r[b]).price,
        ) by {
            assert(r[b] == levels[b - 1]);
            if a > 0 {
                assert(r[a] == levels[a - 1]);
            } else {
                assert(ahead(side, levels[0].price, levels[b - 1].price) || b - 1 == 0);
            }
        }
        assert forall|i: int| 0 <= i < r.len() implies (#[trigger] r[i]).orders.len() > 0 && orders_ok(
            r[i].orders,
            r[i].price,
            side,
            0,
            hi2,
        ) by {
            if i > 0 {
                assert(r[i] == levels[i - 1]);
            }
        }
        if all_behind(levels, side, q) && ahead(side, q, p.price) {
            assert forall|i: int| 0 <= i < r.len() implies ahead(side, q, (#[trigger] r[i]).price) by {
                if i > 0 {
                    assert(r[i] == levels[i - 1]);
                }
            }
        }
    }
}

/// The book holds `p` at its price.
pub open spec fn holds_order(levels: Seq<LevelView>, p: PartialOrder) -> bool {
    exists|i: int, k: int|
        0 <= i < levels.len() && 0 <= k < levels[i].orders.len() && levels[i].price == p.price && (
        #[trigger] levels[i].orders[k]) == p
}

/// The order that came to rest is on the book afterwards.
pub proof fn lemma_rest_order_holds(levels: Seq<LevelView>, p: PartialOrder)
    ensures
        holds_order(rest_order(levels, p), p),
    decreases levels.len(),
{
    let r = rest_order(levels, p);
    if levels.len() == 0 {
        assert(r[0].orders[0] == p);
    } else if levels[0].price == p.price {
        let o = levels[0].orders;
        assert(r[0].orders[o.len() as int] == p);
    } else if ahead(p.side, levels[0].price, p.price) {
        lemma_rest_order_holds(levels.drop_first(), p);
        let r2 = rest_order(levels.drop_first(), p);
        let (i, k) = choose|i: int, k: int|
            0 <= i < r2.len() && 0 <= k < r2[i].orders.len() && r2[i].price == p.price && (
            #[trigger] r2[i].orders[k]) == p;
        assert(r[i + 1] == r2[i]);
        assert(r[i + 1].orders[k] == p);
    } else {
        assert(r[0].orders[0] == p);
    }
}

/// The sum of the amounts of a sequence of orders.
pub open spec fn total_amount(s: Seq<PartialOrder>) -> int
    decreases s.len(),
{
    if s.len() == 0 {
        0
    } else {
        s[0].amount + total_amount(s.drop_first())
    }
}

/// Every order in `s` is signed by someone other than `signer`.
pub open spec fn none_signed_by(s: Seq<PartialOrder>, signer: Seq<char>) -> bool {
    forall|k: int| 0 <= k < s.len() ==> (#[trigger] s[k]).signer@ != signer
}

pub proof fn lemma_total_amount_append(a: Seq<PartialOrder>, b: Seq<PartialOrder>)
    ensures
        total_amount(a + b) == total_amount(a) + total_amount(b),
    decreases a.len(),
{
    if a.len() == 0 {
        assert(a + b =~= b);
    } else {
        assert((a + b).drop_first() =~= a.drop_first() + b);
        lemma_total_amount_append(a.drop_first(), b);
    }
}

pub proof fn lemma_total_amount_single(p: PartialOrder)
    ensures
        total_amount(seq![p]) == p.amount,
{
    assert(seq![p].drop_first() =~= Seq::<PartialOrder>::empty());
    assert(total_amount(Seq::<PartialOrder>::empty()) == 0);
}

/// Sweeping a level keeps it well formed, trades exactly what the taker no longer has left,
/// never matches the taker's own orders, and records only makers of this level.
pub proof fn lemma_sweep_level(
    orders: Seq<PartialOrder>,
    signer: Seq<char>,
    left: u64,
    price: u64,
    side: Side,
    lo: int,
    hi: int,
)
    requires
        orders_ok(orders, price, side, lo, hi),
    ensures
        ({
            let (m, k, l) = sweep_level(orders, signer, left);
            &&& orders_ok(k, price, side, lo, hi)
            &&& total_amount(m) + l == left
            &&& l <= left
            &&& none_signed_by(m, signer)
            &&& forall|j: int| 0 <= j < m.len() ==> (#[trigger] m[j]).price == price && m[j].side == side
            &&& l > 0 ==> k.len() == 0 || forall|j: int| 0 <= j < k.len() ==> (#[trigger] k[j]).signer@ == signer
        }),
    decreases orders.len(),
{
    if orders.len() == 0 || left == 0 {
    } else {
        let maker = orders[0];
        let rest = orders.drop_first();
        assert(orders_ok(rest, price, side, maker.ordinal as int, hi)) by {
            assert forall|a: int, b: int| 0 <= a < b < rest.len() implies (#[trigger] rest[a]).ordinal
                < (#[trigger] rest[b]).ordinal by {
                assert(rest[a] == orders[a + 1] && rest[b] == orders[b + 1]);
            }
            assert forall|k: int| 0 <= k < rest.len() implies maker.ordinal < (#[trigger] rest[k]).ordinal by {
                assert(rest[k] == orders[k + 1]);
            }
        }
        if maker.signer@ == signer {
            lemma_sweep_level(rest, signer, left, price, side, maker.ordinal as int, hi);
            let (m, k, l) = sweep_level(rest, signer, left);
            let k2 = seq![maker] + k;
            assert forall|a: int, b: int| 0 <= a < b < k2.len() implies (#[trigger] k2[a]).ordinal
                < (#[trigger] k2[b]).ordinal by {
                if a > 0 {
                    assert(k2[a] == k[a - 1]);
                }
                assert(k2[b] == k[b - 1]);
            }
            assert forall|j: int| 0 <= j < k2.len() implies {
                &&& (#[trigger] k2[j]).price == price
                &&& k2[j].side == side
                &&& k2[j].amount > 0
                &&& lo < k2[j].ordinal <= hi
            } by {
                if j > 0 {
                    assert(k2[j] == k[j - 1]);
                }
            }
            if l > 0 {
                assert forall|j: int| 0 <= j < k2.len() implies (#[trigger] k2[j]).signer@ == signer by {
                    if j > 0 {
                        assert(k2[j] == k[j - 1]);
                    }
                }
            }
        } else if maker.amount <= left {
            let l1 = (left - maker.amount) as u64;
            lemma_sweep_level(rest, signer, l1, price, side, maker.ordinal as int, hi);
            let (m, k, l) = sweep_level(rest, signer, l1);
            let m2 = seq![fill_record(maker, maker.amount)] + m;
            lemma_total_amount_append(seq![fill_record(maker, maker.amount)], m);
            lemma_total_amount_single(fill_record(maker, maker.amount));
            assert forall|j: int| 0 <= j < m2.len() implies (#[trigger] m2[j]).signer@ != signer
                && m2[j].price == price && m2[j].side == side by {
                if j > 0 {
                    assert(m2[j] == m[j - 1]);
                }
            }
            assert forall|k1: int| 0 <= k1 < k.len() implies lo < (#[trigger] k[k1]).ordinal by {}
        } else {
            let m2 = seq![fill_record(maker, left)];
            let k2 = seq![reduced(maker, left)] + rest;
            lemma_total_amount_single(fill_record(maker, left));
            assert forall|a: int, b: int| 0 <= a < b < k2.len() implies (#[trigger] k2[a]).ordinal
                < (#[trigger] k2[b]).ordinal by {
                if a > 0 {
                    assert(k2[a] == rest[a - 1]);
                }
                assert(k2[b] == rest[b - 1]);
            }
            assert forall|j: int| 0 <= j < k2.len() implies {
                &&& (#[trigger] k2[j]).price == price
                &&& k2[j].side == side
                &&& k2[j].amount > 0
                &&& lo < k2[j].ordinal <= hi
            } by {
                if j > 0 {
                    assert(k2[j] == rest[j - 1]);
                }
            }
        }
    }
}

/// The order book of the venue's single instrument and the machinery that matches orders.
#[derive(Debug)]
pub struct MatchingEngine {
    /// The last ordinal given out.
    pub ordinal: u64,
    /// Resting buy orders, highest price first.
    pub bids: Vec<PriceLevel>,
    /// Resting sell orders, lowest price first.
    pub asks: Vec<PriceLevel>,
    /// Every receipt issued, in order.
    pub history: Vec<Receipt>,
}

/// The engine's record of an order entering with `ordinal`.
pub open spec fn taker_of(order: Order, ordinal: u64) -> PartialOrder {
    PartialOrder {
        price: order.price,
        amount: order.amount,
        remaining: order.amount,
        side: order.side,
        signer: order.signer,
        ordinal,
    }
}

/// What rests of a taker that has `left` unfilled.
pub open spec fn residual(taker: PartialOrder, left: u64) -> PartialOrder {
    PartialOrder {
        price: taker.price,
        amount: left,
        remaining: left,
        side: taker.side,
        signer: taker.signer,
        ordinal: taker.ordinal,
    }
}

impl MatchingEngine {
    /// Both books are well formed with ordinals up to the last one given out, and the
    /// receipts were issued with strictly increasing ordinals up to it.
    pub open spec fn wf(&self) -> bool {
        &&& book_ok(book_view(self.asks@), Side::Sell, self.ordinal as int)
        &&& book_ok(book_view(self.bids@), Side::Buy, self.ordinal as int)
        &&& forall|i: int, j: int|
            0 <= i < j < self.history@.len() ==> (#[trigger] self.history@[i]).ordinal
                < (#[trigger] self.history@[j]).ordinal
        &&& forall|i: int| 0 <= i < self.history@.len() ==> (#[trigger] self.history@[i]).ordinal <= self.ordinal
    }

    /// The book that an order on `side` is matched against.
    pub open spec fn opposite_book(&self, side: Side) -> Seq<LevelView> {
        match side {
            Side::Buy => book_view(self.asks@),
            Side::Sell => book_view(self.bids@),
        }
    }

    /// The book that an order on `side` rests on.
    pub open spec fn own_book(&self, side: Side) -> Seq<LevelView> {
        match side {
            Side::Buy => book_view(self.bids@),
            Side::Sell => book_view(self.asks@),
        }
    }

    /// Matching `order` against this engine: the match records, the opposite book afterwards,
    /// and the quantity left unfilled.
    pub open spec fn sweep(&self, order: Order) -> (Seq<PartialOrder>, Seq<LevelView>, u64) {
        sweep_book(
            self.opposite_book(order.side),
            taker_of(order, (self.ordinal + 1) as u64),
            order.amount,
        )
    }

    /// The own book after the unfilled quantity of `order`, if any, came to rest.
    pub open spec fn own_after(&self, order: Order) -> Seq<LevelView> {
        let left = self.sweep(order).2;
        if left > 0 {
            rest_order(self.own_book(order.side), residual(taker_of(order, (self.ordinal + 1) as u64), left))
        } else {
            self.own_book(order.side)
        }
    }

    /// `after` is the engine that processing `order` on `self` leaves: the next ordinal, both
    /// books as matching and resting make them, and the receipt appended to the history.
    pub open spec fn advanced(&self, order: Order, after: MatchingEngine) -> bool {
        let (m, opposite, left) = self.sweep(order);
        &&& after.ordinal == self.ordinal + 1
        &&& after.opposite_book(order.side) == opposite
        &&& after.own_book(order.side) == self.own_after(order)
        &&& after.history@.len() == self.history@.len() + 1
        &&& after.history@.subrange(0, self.history@.len() as int) == self.history@
        &&& after.history@.last().ordinal == after.ordinal
        &&& after.history@.last().matches@ == m
    }

    /// `after` and `r` are what processing `order` on `self` produces.
    pub open spec fn processed(&self, order: Order, after: MatchingEngine, r: Receipt) -> bool {
        &&& self.advanced(order, after)
        &&& r.ordinal == after.ordinal
        &&& r.matches@ == self.sweep(order).0
    }

    /// Receipts are issued with strictly increasing ordinals: of two receipts, the one issued
    /// first has the smaller ordinal.
    pub proof fn lemma_receipt_ordinals_increase(&self, i: int, j: int)
        requires
            self.wf(),
            0 <= i < j < self.history@.len(),
        ensures
            self.history@[i].ordinal < self.history@[j].ordinal,
    {
    }

    /// Creates an engine with ordinal 0, empty books and no history.
    pub fn new() -> (r: Self)
        ensures
            r.wf(),
            r.ordinal == 0,
            r.bids@.len() == 0,
            r.asks@.len() == 0,
            r.history@.len() == 0,
    {
        MatchingEngine { ordinal: 0, bids: Vec::new(), asks: Vec::new(), history: Vec::new() }
    }

    /// Processes an order: numbers it, matches it against the opposite book at the best prices
    /// first and earliest orders first within a price, passing over the signer's own orders,
    /// rests what is left on its own side, and records the receipt.
    pub fn process(&mut self, order: Order) -> (r: Result<Receipt, ApplicationError>)
        requires
            old(self).wf(),
            old(self).ordinal < u64::MAX,
        ensures
            final(self).wf(),
            r matches Ok(receipt) && old(self).processed(order, *final(self), receipt),
            r matches Ok(receipt) && receipt.ordinal > old(self).ordinal,
            r matches Ok(receipt) && none_signed_by(receipt.matches@, order.signer@),
            r matches Ok(receipt) && total_amount(receipt.matches@) + old(self).sweep(order).2 == order.amount,
            r matches Ok(receipt) && (old(self).sweep(order).2 > 0 ==> holds_order(
                final(self).own_book(order.side),
                residual(taker_of(order, receipt.ordinal), old(self).sweep(order).2),
            )),
            no_empty_level(book_view(final(self).asks@)),
            no_empty_level(book_view(final(self).bids@)),
    {
        let ghost pre = *self;
        self.ordinal = self.ordinal + 1;
        let ordinal = self.ordinal;
        let original_amount = order.amount;
        let partial = order.into_partial_order(ordinal, original_amount);
        let ghost taker = partial;
        proof {
            lemma_book_ok_raise(book_view(pre.asks@), Side::Sell, pre.ordinal as int, ordinal as int);
            lemma_book_ok_raise(book_view(pre.bids@), Side::Buy, pre.ordinal as int, ordinal as int);
        }
        let matches;
        let left;
        match partial.side {
            Side::Buy => {
                let (m, l) = Self::match_order(&partial, &mut self.asks, original_amount);
                proof {
                    lemma_sweep_book(book_view(pre.asks@), taker, original_amount, Side::Sell, ordinal as int);
                }
                matches = m;
                left = l;
            },
            Side::Sell => {
                let (m, l) = Self::match_order(&partial, &mut self.bids, original_amount);
                proof {
                    lemma_sweep_book(book_view(pre.bids@), taker, original_amount, Side::Buy, ordinal as int);
                }
                matches = m;
                left = l;
            },
        }
        if left > 0 {
            let mut resting = partial;
            resting.amount = left;
            resting.remaining = left;
            proof {
                lemma_rest_order(pre.own_book(taker.side), resting, pre.ordinal as int, 0);
                lemma_rest_order_holds(pre.own_book(taker.side), resting);
            }
            match resting.side {
                Side::Buy => Self::rest(&mut self.bids, resting),
                Side::Sell => Self::rest(&mut self.asks, resting),
            }
        }
        let receipt = Receipt { ordinal, matches };
        self.history.push(receipt.copied());
        proof {
            assert(self.history@.subrange(0, pre.history@.len() as int) =~= pre.history@);
        }
        Ok(receipt)
    }

    fn fill(maker: &PartialOrder, qty: u64) -> (r: PartialOrder)
        ensures
            r == fill_record(*maker, qty),
    {
        PartialOrder {
            price: maker.price,
            amount: qty,
            remaining: 0,
            side: maker.side,
            signer: maker.signer.clone(),
            ordinal: maker.ordinal,
        }
    }

    fn reduce(maker: &PartialOrder, qty: u64) -> (r: PartialOrder)
        requires
            qty <= maker.amount,
        ensures
            r == reduced(*maker, qty),
    {
        PartialOrder {
            price: maker.price,
            amount: maker.amount - qty,
            remaining: maker.amount - qty,
            side: maker.side,
            signer: maker.signer.clone(),
            ordinal: maker.ordinal,
        }
    }

    /// Sweeps the orders of one level for a taker of `signer` with `left` to fill.
    fn match_level(orders: &Vec<PartialOrder>, signer: &String, left: u64) -> (r: (
        Vec<PartialOrder>,
        Vec<PartialOrder>,
        u64,
    ))
        ensures
            (r.0@, r.1@, r.2) == sweep_level(orders@, signer@, left),
    {
        let ghost whole = sweep_level(orders@, signer@, left);
        let mut matches: Vec<PartialOrder> = Vec::new();
        let mut kept: Vec<PartialOrder> = Vec::new();
        let mut left = left;
        let mut i: usize = 0;
        proof {
            let (m, k, l) = whole;
            assert(orders@.subrange(0, orders@.len() as int) =~= orders@);
            assert(matches@ + m =~= m);
            assert(kept@ + k =~= k);
        }
        while i < orders.len() && left > 0
            invariant
                i <= orders@.len(),
                whole == ({
                    let (m, k, l) = sweep_level(orders@.subrange(i as int, orders@.len() as int), signer@, left);
                    (matches@ + m, kept@ + k, l)
                }),
            decreases orders@.len() - i,
        {
            let ghost sub = orders@.subrange(i as int, orders@.len() as int);
            proof {
                assert(sub[0] == orders@[i as int]);
                assert(sub.drop_first() =~= orders@.subrange(i + 1, orders@.len() as int));
            }
            let maker = &orders[i];
            if maker.signer == *signer {
                let ghost (m, k, l) = sweep_level(sub.drop_first(), signer@, left);
                let ghost kept_old = kept@;
                kept.push(maker.copied());
                proof {
                    assert(kept@ + k =~= kept_old + (seq![*maker] + k));
                }
                i = i + 1;
            } else if maker.amount <= left {
                let ghost (m, k, l) = sweep_level(sub.drop_first(), signer@, (left - maker.amount) as u64);
                let ghost matches_old = matches@;
                matches.push(Self::fill(maker, maker.amount));
                left = left - maker.amount;
                i = i + 1;
                proof {
                    assert(matches@ + m =~= matches_old + (seq![fill_record(*maker, maker.amount)] + m));
                }
            } else {
                let ghost matches_old = matches@;
                let ghost kept_old = kept@;
                let ghost rest = sub.drop_first();
                matches.push(Self::fill(maker, left));
                kept.push(Self::reduce(maker, left));
                proof {
                    assert(matches@ =~= matches_old + seq![fill_record(*maker, left)]);
                    assert(kept@ + rest =~= kept_old + (seq![reduced(*maker, left)] + rest));
                }
                left = 0;
                i = i + 1;
                proof {
                    assert(matches@ + Seq::<PartialOrder>::empty() =~= matches@);
                }
            }
        }
        let ghost sub = orders@.subrange(i as int, orders@.len() as int);
        let ghost kept_before = kept@;
        let mut j: usize = i;
        while j < orders.len()
            invariant
                i <= j <= orders@.len(),
                kept@ == kept_before + orders@.subrange(i as int, j as int),
            decreases orders@.len() - j,
        {
            kept.push(orders[j].copied());
            j = j + 1;
            assert(kept@ =~= kept_before + orders@.subrange(i as int, j as int));
        }
        assert(sub =~= orders@.subrange(i as int, j as int));
        (matches, kept, left)
    }

    fn crosses_at(taker: &PartialOrder, level_price: u64) -> (r: bool)
        ensures
            r == crosses(*taker, level_price),
    {
        match taker.side {
            Side::Buy => level_price <= taker.price,
            Side::Sell => level_price >= taker.price,
        }
    }

    /// Sweeps `book`, the side opposite the taker, for `order` with `left` to fill: levels in
    /// priority order while they cross, removing the levels that were emptied.
    /// Returns the match records and what the taker has left.
    fn match_order(order: &PartialOrder, book: &mut Vec<PriceLevel>, left: u64) -> (r: (Vec<PartialOrder>, u64))
        ensures
            (r.0@, book_view(final(book)@), r.1) == sweep_book(book_view(old(book)@), *order, left),
    {
        let ghost whole = sweep_book(book_view(book@), *order, left);
        let mut levels: Vec<PriceLevel> = Vec::new();
        std::mem::swap(&mut levels, book);
        let mut matches: Vec<PartialOrder> = Vec::new();
        let mut left = left;
        let mut i: usize = 0;
        proof {
            let (m, b, l) = whole;
            assert(book_view(levels@).subrange(0, levels@.len() as int) =~= book_view(levels@));
            assert(matches@ + m =~= m);
            assert(book_view(book@) + b =~= b);
        }
        while i < levels.len() && left > 0 && Self::crosses_at(order, levels[i].price)
            invariant
                i <= levels@.len(),
                whole == ({
                    let (m, b, l) = sweep_book(
                        book_view(levels@).subrange(i as int, levels@.len() as int),
                        *order,
                        left,
                    );
                    (matches@ + m, book_view(book@) + b, l)
                }),
            decreases levels@.len() - i,
        {
            let ghost sub = book_view(levels@).subrange(i as int, levels@.len() as int);
            proof {
                assert(sub[0] == levels@[i as int]@);
                assert(sub.drop_first() =~= book_view(levels@).subrange(i + 1, levels@.len() as int));
            }
            let (mut m, kept, l) = Self::match_level(&levels[i].orders, &order.signer, left);
            let ghost (m2, b2, l2) = sweep_book(sub.drop_first(), *order, l);
            let ghost matches_old = matches@;
            let ghost m_new = m@;
            let ghost book_old = book_view(book@);
            matches.append(&mut m);
            if kept.len() > 0 {
                book.push(PriceLevel { price: levels[i].price, orders: kept });
                proof {
                    assert(book_view(book@) =~= book_old.push(LevelView { price: levels@[i as int].price, orders: kept@ }));
                    assert(book_view(book@) + b2 =~= book_old + (seq![LevelView { price: levels@[i as int].price, orders: kept@ }] + b2));
                }
            } else {
                proof {
                    assert(book_view(book@) =~= book_old);
                }
            }
            left = l;
            i = i + 1;
            proof {
                assert(matches@ + m2 =~= matches_old + (m_new + m2));
            }
        }
        let ghost sub = book_view(levels@).subrange(i as int, levels@.len() as int);
        let ghost book_before = book_view(book@);
        let mut rest = levels.split_off(i);
        book.append(&mut rest);
        proof {
            assert(book_view(book@) =~= book_before + sub);
            assert(matches@ + Seq::<PartialOrder>::empty() =~= matches@);
        }
        (matches, left)
    }

    fn ahead_at(side: Side, a: u64, b: u64) -> (r: bool)
        ensures
            r == ahead(side, a, b),
    {
        match side {
            Side::Buy => a > b,
            Side::Sell => a < b,
        }
    }

    /// Rests `p` on `book`, the book of its own side.
    fn rest(book: &mut Vec<PriceLevel>, p: PartialOrder)
        ensures
            book_view(final(book)@) == rest_order(book_view(old(book)@), p),
    {
        let ghost whole = book_view(book@);
        let mut j: usize = 0;
        proof {
            assert(whole.subrange(0, 0) + whole.subrange(0, whole.len() as int) =~= whole);
        }
        while j < book.len() && book[j].price != p.price && Self::ahead_at(p.side, book[j].price, p.price)
            invariant
                j <= book@.len(),
                book_view(book@) == whole,
                rest_order(whole, p) == whole.subrange(0, j as int) + rest_order(
                    whole.subrange(j as int, whole.len() as int),
                    p,
                ),
            decreases book@.len() - j,
        {
            let ghost sub = whole.subrange(j as int, whole.len() as int);
            proof {
                assert(sub[0] == whole[j as int]);
                assert(sub.drop_first() =~= whole.subrange(j + 1, whole.len() as int));
                assert(whole.subrange(0, j + 1) =~= whole.subrange(0, j as int).push(whole[j as int]));
                assert(whole.subrange(0, j as int) + (seq![whole[j as int]] + rest_order(sub.drop_first(), p))
                    =~= whole.subrange(0, j + 1) + rest_order(sub.drop_first(), p));
            }
            j = j + 1;
        }
        let ghost sub = whole.subrange(j as int, whole.len() as int);
        if j < book.len() && book[j].price == p.price {
            proof {
                assert(sub[0] == whole[j as int]);
                assert(sub.drop_first() =~= whole.subrange(j + 1, whole.len() as int));
            }
            book[j].orders.push(p);
            proof {
                assert(book_view(book@) =~= whole.subrange(0, j as int) + (seq![
                    LevelView { price: sub[0].price, orders: sub[0].orders.push(p) },
                ] + sub.drop_first()));
            }
        } else {
            let ghost single = LevelView { price: p.price, orders: seq![p] };
            let price = p.price;
            let mut orders: Vec<PartialOrder> = Vec::new();
            orders.push(p);
            let level = PriceLevel { price, orders };
            assert(level@ == single) by {
                assert(level.orders@ =~= seq![p]);
            }
            let ghost before = book@;
            book.insert(j, level);
            proof {
                assert(book@ == before.insert(j as int, level));
                assert forall|k: int| 0 <= k < book@.len() implies book_view(book@)[k] == (whole.subrange(0, j as int) + (seq![single] + sub))[k] by {
                    if k < j {
                    } else if k == j {
                    } else {
                        assert(book@[k] == before[k - 1]);
                    }
                }
                assert(book_view(book@) =~= whole.subrange(0, j as int) + (seq![single] + sub));
            }
        }
    }
}

} // verus!
