//! A two-sided order book that matches the lowest ask against the highest bid.
use vstd::prelude::*;

verus! {

#[derive(Clone, Copy, Debug, PartialEq, Eq, Structural)]
pub enum Side {
    Seller,
    Buyer,
}

/// An order: who places it, how much of the base currency, and the price of
/// one unit in the quote currency.
#[derive(Clone, Copy, Debug, PartialEq, Eq, Structural)]
pub struct Trade {
    pub user_id: u64,
    pub amount: u64,
    pub price: u64,
}

impl Trade {
    pub fn from(user_id: u64, amount: u64, price: u64) -> (r: Trade)
        ensures
            r == (Trade { user_id, amount, price }),
    {
        Trade { user_id, amount, price }
    }

    /// The amount, the price and their product fit in an `i64`.
    pub open spec fn fits(&self) -> bool {
        &&& self.amount <= i64::MAX
        &&& self.price <= i64::MAX
        &&& self.amount * self.price <= i64::MAX
    }
}

#[derive(Clone, Copy, Debug, PartialEq, Eq, Structural)]
pub enum Currency {
    UAH,
    USD,
}

/// A change of one user's balance in one currency.
#[derive(Clone, Copy, Debug, PartialEq, Eq, Structural)]
pub struct BalanceChange {
    pub user_id: u64,
    pub value: i64,
    pub currency: Currency,
}

pub struct OrderBook {
    pub sells: Vec<Trade>,
    pub buys: Vec<Trade>,
    pub base: Currency,
    pub quote: Currency,
}

/// Some ask is at or below some bid.
pub open spec fn crossed(sells: Seq<Trade>, buys: Seq<Trade>) -> bool {
    exists|i: int, j: int| 0 <= i < sells.len() && 0 <= j < buys.len() && sells[i].price <= buys[j].price
}

pub open spec fn all_fit(s: Seq<Trade>) -> bool {
    forall|i: int| 0 <= i < s.len() ==> (#[trigger] s[i]).fits()
}

/// One match as four balance changes: the buyer pays base currency to the
/// seller, the seller pays quote currency to the buyer.
pub open spec fn is_settlement(c: Seq<BalanceChange>, base: Currency, quote: Currency) -> bool {
    &&& c.len() == 4
    &&& c[0].currency == base && c[1].currency == base
    &&& c[2].currency == quote && c[3].currency == quote
    &&& c[0].value == -c[1].value && c[1].value >= 0
    &&& c[2].value == -c[3].value && c[3].value >= 0
    &&& c[0].user_id == c[3].user_id
    &&& c[1].user_id == c[2].user_id
}

pub open spec fn settlements(r: Seq<BalanceChange>, base: Currency, quote: Currency) -> bool {
    &&& r.len() % 4 == 0
    &&& forall|k: int| 0 <= k < r.len() / 4 ==> is_settlement(#[trigger] r.subrange(4 * k, 4 * k + 4), base, quote)
}

/// The index of a lowest-priced order.
fn lowest(v: &Vec<Trade>) -> (r: usize)
    requires
        v@.len() > 0,
    ensures
        r < v@.len(),
        forall|i: int| 0 <= i < v@.len() ==> v@[r as int].price <= v@[i].price,
{
    let mut m: usize = 0;
    let mut j: usize = 1;
    while j < v.len()
        invariant
            m < v@.len(),
            j <= v@.len(),
            forall|i: int| 0 <= i < j ==> v@[m as int].price <= v@[i].price,
        decreases v@.len() - j,
    {
        if v[j].price < v[m].price {
            m = j;
        }
        j = j + 1;
    }
    m
}

/// The index of a highest-priced order.
fn highest(v: &Vec<Trade>) -> (r: usize)
    requires
        v@.len() > 0,
    ensures
        r < v@.len(),
        forall|i: int| 0 <= i < v@.len() ==> v@[r as int].price >= v@[i].price,
{
    let mut m: usize = 0;
    let mut j: usize = 1;
    while j < v.len()
        invariant
            m < v@.len(),
            j <= v@.len(),
            forall|i: int| 0 <= i < j ==> v@[m as int].price >= v@[i].price,
        decreases v@.len() - j,
    {
        if v[j].price > v[m].price {
            m = j;
        }
        j = j + 1;
    }
    m
}

proof fn lemma_settlements_extend(r: Seq<BalanceChange>, c: Seq<BalanceChange>, base: Currency, quote: Currency)
    requires
        settlements(r, base, quote),
        is_settlement(c, base, quote),
    ensures
        settlements(r + c, base, quote),
{
    let s = r + c;
    assert forall|k: int| 0 <= k < s.len() / 4 implies is_settlement(#[trigger] s.subrange(4 * k, 4 * k + 4), base, quote) by {
        if k < r.len() / 4 {
            assert(s.subrange(4 * k, 4 * k + 4) =~= r.subrange(4 * k, 4 * k + 4));
        } else {
            assert(k == r.len() / 4);
            assert(s.subrange(4 * k, 4 * k + 4) =~= c);
        }
    }
}

impl OrderBook {
    /// The book's invariant: every order's amount, price and their product fit in an `i64`.
    pub open spec fn wf(&self) -> bool {
        all_fit(self.sells@) && all_fit(self.buys@)
    }

    pub fn new(base: Currency, quote: Currency) -> (r: OrderBook)
        ensures
            r.wf(),
            r.sells@.len() == 0,
            r.buys@.len() == 0,
            r.base == base,
            r.quote == quote,
    {
        OrderBook { sells: Vec::new(), buys: Vec::new(), base, quote }
    }

    /// Adds an order to its side of the book, then matches what crosses.
    pub fn new_order(&mut self, trade: Trade, side: Side) -> (r: Vec<BalanceChange>)
        requires
            old(self).wf(),
            trade.fits(),
        ensures
            final(self).wf(),
            final(self).base == old(self).base,
            final(self).quote == old(self).quote,
            !crossed(final(self).sells@, final(self).buys@),
            settlements(r@, old(self).base, old(self).quote),
            side == Side::Seller ==> (r@.len() == 0 <==> !crossed(old(self).sells@.push(trade), old(self).buys@)),
            side == Side::Buyer ==> (r@.len() == 0 <==> !crossed(old(self).sells@, old(self).buys@.push(trade))),
    {
        match side {
            Side::Seller => self.sells.push(trade),
            Side::Buyer => self.buys.push(trade),
        }
        self.match_trades()
    }

    /// Matches the lowest ask with the highest bid while the ask is at or
    /// below the bid, at the bid's price and for the smaller of the two amounts;
    /// a filled order leaves the book.
    #[verifier::spinoff_prover]
    #[verifier::rlimit(30)]
    pub fn match_trades(&mut self) -> (r: Vec<BalanceChange>)
        requires
            old(self).wf(),
        ensures
            final(self).wf(),
            final(self).base == old(self).base,
            final(self).quote == old(self).quote,
            !crossed(final(self).sells@, final(self).buys@),
            settlements(r@, old(self).base, old(self).quote),
            r@.len() == 0 <==> !crossed(old(self).sells@, old(self).buys@),
    {
        let mut changes: Vec<BalanceChange> = Vec::new();
        let ghost was_crossed = crossed(self.sells@, self.buys@);
        loop
            invariant
                self.wf(),
                self.base == old(self).base,
                self.quote == old(self).quote,
                settlements(changes@, self.base, self.quote),
                changes@.len() == 0 ==> self.sells@ == old(self).sells@ && self.buys@ == old(self).buys@,
                was_crossed == crossed(old(self).sells@, old(self).buys@),
                changes@.len() > 0 ==> was_crossed,
            ensures
                self.wf(),
                self.base == old(self).base,
                self.quote == old(self).quote,
                settlements(changes@, self.base, self.quote),
                !crossed(self.sells@, self.buys@),
                changes@.len() == 0 <==> !was_crossed,
            decreases self.sells@.len() + self.buys@.len(),
        {
            if self.sells.len() == 0 || self.buys.len() == 0 {
                break;
            }
            let si = lowest(&self.sells);
            let bi = highest(&self.buys);
            let seller = self.sells[si];
            let buyer = self.buys[bi];
            if seller.price > buyer.price {
                proof {
                    assert forall|i: int, j: int| 0 <= i < self.sells@.len() && 0 <= j < self.buys@.len()
                        implies !(self.sells@[i].price <= self.buys@[j].price) by {
                        assert(self.sells@[si as int].price <= self.sells@[i].price);
                        assert(self.buys@[bi as int].price >= self.buys@[j].price);
                    }
                }
                break;
            }
            proof {
                assert(crossed(self.sells@, self.buys@));
                assert(self.sells@[si as int].fits());
                assert(self.buys@[bi as int].fits());
            }
            let amount = if seller.amount < buyer.amount { seller.amount } else { buyer.amount };
            let price = buyer.price as i64;
            let amount_base = amount as i64;
            proof {
                assert(amount * buyer.price <= buyer.amount * buyer.price) by (nonlinear_arith)
                    requires amount <= buyer.amount;
            }
            let amount_quote = amount_base * price;
            let ghost start = changes@;
            changes.push(BalanceChange { user_id: buyer.user_id, value: -amount_base, currency: self.base });
            changes.push(BalanceChange { user_id: seller.user_id, value: amount_base, currency: self.base });
            changes.push(BalanceChange { user_id: seller.user_id, value: -amount_quote, currency: self.quote });
            changes.push(BalanceChange { user_id: buyer.user_id, value: amount_quote, currency: self.quote });
            proof {
                assert(amount_quote >= 0) by (nonlinear_arith)
                    requires amount_quote == amount_base * price, amount_base >= 0, price >= 0;
                let c = changes@.subrange(start.len() as int, start.len() as int + 4);
                assert(changes@ =~= start + c);
                lemma_settlements_extend(start, c, self.base, self.quote);
            }
            let ghost sells0 = self.sells@;
            let ghost buys0 = self.buys@;
            let mut s = self.sells.remove(si);
            let mut b = self.buys.remove(bi);
            s.amount = s.amount - amount;
            b.amount = b.amount - amount;
            proof {
                assert(s.amount * s.price <= seller.amount * seller.price) by (nonlinear_arith)
                    requires s.amount <= seller.amount, s.price == seller.price;
                assert(b.amount * b.price <= buyer.amount * buyer.price) by (nonlinear_arith)
                    requires b.amount <= buyer.amount, b.price == buyer.price;
            }
            if s.amount > 0 {
                self.sells.insert(si, s);
            }
            if b.amount > 0 {
                self.buys.insert(bi, b);
            }
            proof {
                assert(s.amount == 0 || b.amount == 0);
                assert forall|i: int| 0 <= i < self.sells@.len() implies (#[trigger] self.sells@[i]).fits() by {
                    if s.amount > 0 {
                        if i != si {
                            assert(self.sells@[i] == sells0[i]);
                        }
                    } else {
                        assert(self.sells@[i] == sells0[if i < si { i } else { i + 1 }]);
                    }
                }
                assert forall|i: int| 0 <= i < self.buys@.len() implies (#[trigger] self.buys@[i]).fits() by {
                    if b.amount > 0 {
                        if i != bi {
                            assert(self.buys@[i] == buys0[i]);
                        }
                    } else {
                        assert(self.buys@[i] == buys0[if i < bi { i } else { i + 1 }]);
                    }
                }
            }
        }
        changes
    }
}

} // verus!
