//! Order records and the price-time priority order on them.
//!
//! A price is the ratio of two quantities.  The original ratio semantics —
//! a numerator of zero gives price zero, a denominator of zero gives an
//! infinite price — is kept, but comparisons are exact: two finite prices
//! are compared by cross-multiplying the two ratios, never by dividing.

use vstd::prelude::*;
use crate::keys::Pubkey;

verus! {

#[derive(Clone, Copy, Debug, PartialEq, Eq, Structural)]
pub enum OrderType {
    Limit,
    Market,
}

#[derive(Clone, Copy, Debug, PartialEq, Eq, Structural)]
pub enum OrderSide {
    Buy,
    Sell,
}

/// One resting or incoming order.  `id` is a monotonic sequence number and
/// the tie-break key; the quantities are what the order still wants to buy
/// and what it still offers to sell.
#[derive(Clone, Copy, Debug, PartialEq, Eq, Structural)]
pub struct OrderNode {
    pub id: u64,
    pub buy_quantity: u64,
    pub sell_quantity: u64,
    pub buy_token: Pubkey,
    pub sell_token: Pubkey,
    pub owner: Pubkey,
    pub timestamp: i64,
}

/// A request handed to the matching engine: an order plus its type and side.
#[derive(Clone, Copy, Debug, PartialEq, Eq, Structural)]
pub struct OrderRequest {
    pub id: u64,
    pub buy_quantity: u64,
    pub sell_quantity: u64,
    pub buy_token: Pubkey,
    pub sell_token: Pubkey,
    pub owner: Pubkey,
    pub timestamp: i64,
    pub order_type: OrderType,
    pub order_side: OrderSide,
}

/// Class of the ratio `num / den`: 0 for a zero price (`num == 0`), 2 for
/// the infinite sentinel (`den == 0` with `num > 0`), 1 for a finite
/// positive price.
pub open spec fn price_class(num: u64, den: u64) -> int {
    if num == 0 {
        0
    } else if den == 0 {
        2
    } else {
        1
    }
}

/// Exact "strictly greater" on two prices given as ratios.
pub open spec fn price_gt(n1: u64, d1: u64, n2: u64, d2: u64) -> bool {
    let c1 = price_class(n1, d1);
    let c2 = price_class(n2, d2);
    c1 > c2 || (c1 == 1 && c2 == 1 && n1 * d2 > n2 * d1)
}

/// Exact equality on two prices given as ratios.
pub open spec fn price_eq(n1: u64, d1: u64, n2: u64, d2: u64) -> bool {
    let c1 = price_class(n1, d1);
    let c2 = price_class(n2, d2);
    c1 == c2 && (c1 != 1 || n1 * d2 == n2 * d1)
}

/// Heap priority: higher sell price first, earlier id on price ties.
/// `a` outranks `b` when `a`'s sell price is strictly greater, or the
/// prices are equal and `a` is the older order.
pub open spec fn prio_gt(a: OrderNode, b: OrderNode) -> bool {
    ||| price_gt(a.sell_quantity, a.buy_quantity, b.sell_quantity, b.buy_quantity)
    ||| (price_eq(a.sell_quantity, a.buy_quantity, b.sell_quantity, b.buy_quantity)
        && a.id < b.id)
}

/// The crossing test: an incoming order trades against a resting one when
/// the incoming sell price is at least the resting buy price.
pub open spec fn crosses(incoming: OrderNode, resting: OrderNode) -> bool {
    ||| price_gt(
            incoming.sell_quantity, incoming.buy_quantity,
            resting.buy_quantity, resting.sell_quantity,
        )
    ||| price_eq(
            incoming.sell_quantity, incoming.buy_quantity,
            resting.buy_quantity, resting.sell_quantity,
        )
}

impl OrderNode {
    pub fn new(
        id: u64,
        buy_quantity: u64,
        sell_quantity: u64,
        buy_token: Pubkey,
        sell_token: Pubkey,
        owner: Pubkey,
        timestamp: i64,
    ) -> (r: Self)
        ensures
            r == (OrderNode {
                id, buy_quantity, sell_quantity, buy_token, sell_token, owner, timestamp,
            }),
    {
        OrderNode { id, buy_quantity, sell_quantity, buy_token, sell_token, owner, timestamp }
    }
}

impl Default for OrderNode {
    fn default() -> (r: Self)
        ensures
            r == (OrderNode {
                id: 0,
                buy_quantity: 0,
                sell_quantity: 0,
                buy_token: Pubkey { hi: 0, lo: 0 },
                sell_token: Pubkey { hi: 0, lo: 0 },
                owner: Pubkey { hi: 0, lo: 0 },
                timestamp: 0,
            }),
    {
        OrderNode {
            id: 0,
            buy_quantity: 0,
            sell_quantity: 0,
            buy_token: Pubkey { hi: 0, lo: 0 },
            sell_token: Pubkey { hi: 0, lo: 0 },
            owner: Pubkey { hi: 0, lo: 0 },
            timestamp: 0,
        }
    }
}

impl OrderRequest {
    pub fn new(
        id: u64,
        buy_quantity: u64,
        sell_quantity: u64,
        buy_token: Pubkey,
        sell_token: Pubkey,
        owner: Pubkey,
        timestamp: i64,
        order_type: OrderType,
        order_side: OrderSide,
    ) -> (r: Self)
        ensures
            r == (OrderRequest {
                id, buy_quantity, sell_quantity, buy_token, sell_token, owner,
                timestamp, order_type, order_side,
            }),
    {
        OrderRequest {
            id, buy_quantity, sell_quantity, buy_token, sell_token, owner,
            timestamp, order_type, order_side,
        }
    }

    /// The record the book stores for this request.
    pub open spec fn spec_order_node(&self) -> OrderNode {
        OrderNode {
            id: self.id,
            buy_quantity: self.buy_quantity,
            sell_quantity: self.sell_quantity,
            buy_token: self.buy_token,
            sell_token: self.sell_token,
            owner: self.owner,
            timestamp: self.timestamp,
        }
    }

    /// The order stripped to the record the book stores.
    pub fn to_order_node(&self) -> (r: OrderNode)
        ensures
            r == self.spec_order_node(),
    {
        OrderNode {
            id: self.id,
            buy_quantity: self.buy_quantity,
            sell_quantity: self.sell_quantity,
            buy_token: self.buy_token,
            sell_token: self.sell_token,
            owner: self.owner,
            timestamp: self.timestamp,
        }
    }
}

/// The product of two 64-bit quantities fits in 128 bits.
proof fn lemma_u64_mul_fits(x: u64, y: u64)
    ensures
        x as int * y as int <= u128::MAX as int,
{
    assert(x as int * y as int <= u64::MAX as int * u64::MAX as int) by (nonlinear_arith)
        requires
            x <= u64::MAX,
            y <= u64::MAX,
    {
    }
}

/// Exact comparison `n1 / d1 > n2 / d2` under the zero and infinity rules.
pub fn price_gt_exec(n1: u64, d1: u64, n2: u64, d2: u64) -> (r: bool)
    ensures
        r == price_gt(n1, d1, n2, d2),
{
    if n1 == 0 {
        false
    } else if d1 == 0 {
        // n1 / d1 is infinite: greater than everything but another infinity.
        !(n2 != 0 && d2 == 0)
    } else if n2 == 0 {
        true
    } else if d2 == 0 {
        false
    } else {
        proof {
            lemma_u64_mul_fits(n1, d2);
            lemma_u64_mul_fits(n2, d1);
        }
        (n1 as u128) * (d2 as u128) > (n2 as u128) * (d1 as u128)
    }
}

/// Exact comparison `n1 / d1 == n2 / d2` under the zero and infinity rules.
pub fn price_eq_exec(n1: u64, d1: u64, n2: u64, d2: u64) -> (r: bool)
    ensures
        r == price_eq(n1, d1, n2, d2),
{
    if n1 == 0 {
        n2 == 0
    } else if d1 == 0 {
        n2 != 0 && d2 == 0
    } else if n2 == 0 || d2 == 0 {
        false
    } else {
        proof {
            lemma_u64_mul_fits(n1, d2);
            lemma_u64_mul_fits(n2, d1);
        }
        (n1 as u128) * (d2 as u128) == (n2 as u128) * (d1 as u128)
    }
}

/// Runtime form of the heap priority order.
pub fn prio_gt_exec(a: &OrderNode, b: &OrderNode) -> (r: bool)
    ensures
        r == prio_gt(*a, *b),
{
    if price_gt_exec(a.sell_quantity, a.buy_quantity, b.sell_quantity, b.buy_quantity) {
        true
    } else if price_eq_exec(a.sell_quantity, a.buy_quantity, b.sell_quantity, b.buy_quantity) {
        a.id < b.id
    } else {
        false
    }
}

/// Runtime form of the crossing test.
pub fn crosses_exec(incoming: &OrderNode, resting: &OrderNode) -> (r: bool)
    ensures
        r == crosses(*incoming, *resting),
{
    if price_gt_exec(
        incoming.sell_quantity, incoming.buy_quantity,
        resting.buy_quantity, resting.sell_quantity,
    ) {
        true
    } else {
        price_eq_exec(
            incoming.sell_quantity, incoming.buy_quantity,
            resting.buy_quantity, resting.sell_quantity,
        )
    }
}

/// The priority order is irreflexive in the strict part and total on records
/// with distinct ids: of two such records one strictly outranks the other.
pub proof fn lemma_prio_total(a: OrderNode, b: OrderNode)
    ensures
        !(prio_gt(a, b) && prio_gt(b, a)),
        a.id != b.id ==> (prio_gt(a, b) || prio_gt(b, a)),
{
}

/// Not being outranked is transitive: if `b` does not outrank `a` and `c`
/// does not outrank `b`, then `c` does not outrank `a`.
pub proof fn lemma_prio_trans(a: OrderNode, b: OrderNode, c: OrderNode)
    requires
        !prio_gt(b, a),
        !prio_gt(c, b),
    ensures
        !prio_gt(c, a),
{
    let an = a.sell_quantity as int;
    let ad = a.buy_quantity as int;
    let bn = b.sell_quantity as int;
    let bd = b.buy_quantity as int;
    let cn = c.sell_quantity as int;
    let cd = c.buy_quantity as int;
    let one_class = price_class(a.sell_quantity, a.buy_quantity) == 1
        && price_class(b.sell_quantity, b.buy_quantity) == 1
        && price_class(c.sell_quantity, c.buy_quantity) == 1;
    if one_class {
        // Finite prices are compared by cross-multiplication; chain the
        // products through b.
        if bn * ad <= an * bd && cn * bd <= bn * cd {
            assert(cn * ad <= an * cd) by (nonlinear_arith)
                requires
                    bn * ad <= an * bd,
                    cn * bd <= bn * cd,
                    ad > 0,
                    bd > 0,
                    cd > 0,
            {
            }
            if cn * ad == an * cd {
                // Two equal prices with b in between: b's price equals both.
                assert(bn * ad == an * bd && cn * bd == bn * cd) by (nonlinear_arith)
                    requires
                        bn * ad <= an * bd,
                        cn * bd <= bn * cd,
                        cn * ad == an * cd,
                        ad > 0,
                        bd > 0,
                        cd > 0,
                {
                }
            }
        }
    }
}

} // verus!
