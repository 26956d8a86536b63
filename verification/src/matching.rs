//! The matching engine: crossing an incoming order against the opposing
//! side of a book in price-time priority, producing trades and a residual.

use vstd::prelude::*;
use crate::types::{Order, OrderSide};
use crate::orderbook::{
    Orderbook, PriceLevel, OrderLocation, LevelM, EntryM, BookM, entry_m_wf, entry_m_remaining,
    level_m_wf, side_levels_wf, side_view, side_has_at, level_has_id, levels_take_at,
    levels_fill_at, lemma_levels_take_at_post, lemma_levels_fill_at_post, locs_map, locs_unique, price_before,
    lemma_locs_map_contains, lemma_locs_map_index, lemma_locs_map_remove, index_wf, book_wf,
    index_entry_ok, levels_add, level_insert_index,
};

verus! {

/// One fill produced by a cross. The execution price is always the maker's
/// resting price.
#[derive(Clone, Debug)]
pub struct TradeMatch {
    pub maker_order_id: u64,
    pub maker_wallet: String,
    pub taker_order_id: u64,
    pub taker_wallet: String,
    pub price: u64,
    pub size: u64,
}

/// The maker's cumulative state right after one fill, for status updates.
#[derive(Clone, Copy, Debug)]
pub struct MakerFill {
    pub order_id: u64,
    /// Cumulative filled size after this fill.
    pub filled: u64,
    /// The maker's full order size.
    pub size: u64,
}

/// Everything a cross produced.
#[derive(Clone, Debug)]
pub struct MatchResult {
    pub trades: Vec<TradeMatch>,
    /// Size of the incoming order still unfilled after the cross.
    pub remaining_size: u64,
    /// Per-trade maker state, aligned index-wise with `trades`.
    pub maker_updates: Vec<MakerFill>,
}

/// Mathematical model of one fill, carrying the maker's state with it.
#[verifier::ext_equal]
pub struct TradeM {
    pub maker_order_id: int,
    pub maker_wallet: Seq<char>,
    pub taker_order_id: int,
    pub taker_wallet: Seq<char>,
    pub price: int,
    pub size: int,
    pub maker_filled_after: int,
    pub maker_size: int,
}

/// The model fill described by an executable trade plus its maker record.
pub open spec fn tm_of(t: TradeMatch, m: MakerFill) -> TradeM {
    TradeM {
        maker_order_id: t.maker_order_id as int,
        maker_wallet: t.maker_wallet@,
        taker_order_id: t.taker_order_id as int,
        taker_wallet: t.taker_wallet@,
        price: t.price as int,
        size: t.size as int,
        maker_filled_after: m.filled as int,
        maker_size: m.size as int,
    }
}

/// The model fills described by aligned trade and maker-record sequences.
pub open spec fn tseq(ts: Seq<TradeMatch>, ms: Seq<MakerFill>) -> Seq<TradeM> {
    Seq::new(ts.len(), |i: int| tm_of(ts[i], ms[i]))
}

/// Whether an opposing level price is acceptable to the taker's limit.
pub open spec fn price_within(taker_side: OrderSide, level_price: int, limit: int) -> bool {
    match taker_side {
        OrderSide::Buy => level_price <= limit,
        OrderSide::Sell => level_price >= limit,
    }
}

/// Result of crossing against one side: the fills, the side as it remains,
/// and the taker's residual size.
#[verifier::ext_equal]
pub struct CrossM {
    pub trades: Seq<TradeM>,
    pub levels: Seq<LevelM>,
    pub residual: int,
}

/// Whether one more fill can happen: the taker still needs size, an opposing
/// level exists within its limit, and that level's head entry can trade.
pub open spec fn cross_step_ok(
    levels: Seq<LevelM>,
    taker_side: OrderSide,
    limit: int,
    need: int,
) -> bool {
    &&& need > 0
    &&& levels.len() > 0
    &&& price_within(taker_side, levels[0].price, limit)
    &&& levels[0].entries.len() > 0
    &&& entry_m_wf(levels[0].entries[0])
}

/// The cross itself: repeatedly fill the head entry of the best acceptable
/// opposing level with `min(need, remaining)`, at the maker's resting price,
/// until the taker is done or no acceptable liquidity remains.
pub open spec fn cross(
    levels: Seq<LevelM>,
    taker_side: OrderSide,
    taker_id: int,
    taker_wallet: Seq<char>,
    limit: int,
    need: int,
) -> CrossM
    decreases need,
{
    if !cross_step_ok(levels, taker_side, limit, need) {
        CrossM { trades: Seq::empty(), levels, residual: need }
    } else {
        let e = levels[0].entries[0];
        let rem = entry_m_remaining(e);
        let f = if need < rem {
            need
        } else {
            rem
        };
        let t = TradeM {
            maker_order_id: e.order_id,
            maker_wallet: e.wallet,
            taker_order_id: taker_id,
            taker_wallet,
            price: levels[0].price,
            size: f,
            maker_filled_after: e.filled + f,
            maker_size: e.size,
        };
        let levels1 = if f == rem {
            levels_take_at(levels, 0, 0)
        } else {
            levels_fill_at(levels, 0, 0, f)
        };
        let r = cross(levels1, taker_side, taker_id, taker_wallet, limit, need - f);
        CrossM { trades: seq![t] + r.trades, levels: r.levels, residual: r.residual }
    }
}

/// Exec comparison mirroring `price_within`.
fn price_within_x(taker_side: OrderSide, level_price: u64, limit: u64) -> (r: bool)
    ensures
        r == price_within(taker_side, level_price as int, limit as int),
{
    match taker_side {
        OrderSide::Buy => level_price <= limit,
        OrderSide::Sell => level_price >= limit,
    }
}

/// Removing one index record keeps identifiers unique.
proof fn lemma_locs_unique_remove(s: Seq<OrderLocation>, i: int)
    requires
        locs_unique(s),
        0 <= i < s.len(),
    ensures
        locs_unique(s.remove(i)),
{
    let t = s.remove(i);
    assert forall|a: int, b: int|
        #![trigger t[a], t[b]]
        0 <= a < b < t.len() implies t[a].order_id != t[b].order_id by {
        let ao = if a < i {
            a
        } else {
            a + 1 as int
        };
        let bo = if b < i {
            b
        } else {
            b + 1 as int
        };
        assert(t[a] == s[ao] && t[b] == s[bo]);
    }
}

/// Cross one side of a book. `levels` is the side the taker consumes,
/// `other` the untouched side, both tracked so the whole-book id-index
/// correspondence survives every removal.
#[verifier::loop_isolation(false)]
#[verifier::rlimit(60)]
fn cross_side(
    levels: &mut Vec<PriceLevel>,
    locs: &mut Vec<OrderLocation>,
    taker_side: OrderSide,
    taker_id: u64,
    taker_wallet: &String,
    limit: u64,
    need0: u64,
    trades: &mut Vec<TradeMatch>,
    maker_updates: &mut Vec<MakerFill>,
    other: Ghost<Seq<LevelM>>,
) -> (residual: u64)
    requires
        side_levels_wf(side_view(old(levels)@), taker_side.opposite_spec()),
        side_levels_wf(other@, taker_side),
        locs_unique(old(locs)@),
        if taker_side == OrderSide::Buy {
            index_wf(locs_map(old(locs)@), other@, side_view(old(levels)@))
        } else {
            index_wf(locs_map(old(locs)@), side_view(old(levels)@), other@)
        },
        old(trades)@.len() == 0,
        old(maker_updates)@.len() == 0,
    ensures
        ({
            let c = cross(
                side_view(old(levels)@),
                taker_side,
                taker_id as int,
                taker_wallet@,
                limit as int,
                need0 as int,
            );
            &&& side_view(final(levels)@) == c.levels
            &&& residual == c.residual
            &&& final(trades)@.len() == c.trades.len()
            &&& final(maker_updates)@.len() == c.trades.len()
            &&& tseq(final(trades)@, final(maker_updates)@) == c.trades
            &&& side_levels_wf(side_view(final(levels)@), taker_side.opposite_spec())
            &&& locs_unique(final(locs)@)
            &&& if taker_side == OrderSide::Buy {
                index_wf(locs_map(final(locs)@), other@, side_view(final(levels)@))
            } else {
                index_wf(locs_map(final(locs)@), side_view(final(levels)@), other@)
            }
            &&& forall|id: int, p: int|
                #![trigger side_has_at(side_view(final(levels)@), id, p)]
                side_has_at(side_view(final(levels)@), id, p) ==> side_has_at(
                    side_view(old(levels)@),
                    id,
                    p,
                )
        }),
{
    let book_side = taker_side.opposite();
    let ghost v0 = side_view(levels@);
    let ghost tw = taker_wallet@;
    let ghost c0 = cross(v0, taker_side, taker_id as int, tw, limit as int, need0 as int);
    let mut need: u64 = need0;
    while need > 0 && levels.len() > 0 && price_within_x(taker_side, levels[0].price, limit)
        invariant
            side_levels_wf(side_view(levels@), book_side),
            locs_unique(locs@),
            if taker_side == OrderSide::Buy {
                index_wf(locs_map(locs@), other@, side_view(levels@))
            } else {
                index_wf(locs_map(locs@), side_view(levels@), other@)
            },
            trades@.len() == maker_updates@.len(),
            c0.trades == tseq(trades@, maker_updates@) + cross(
                side_view(levels@),
                taker_side,
                taker_id as int,
                tw,
                limit as int,
                need as int,
            ).trades,
            c0.levels == cross(
                side_view(levels@),
                taker_side,
                taker_id as int,
                tw,
                limit as int,
                need as int,
            ).levels,
            c0.residual == cross(
                side_view(levels@),
                taker_side,
                taker_id as int,
                tw,
                limit as int,
                need as int,
            ).residual,
            forall|id: int, p: int|
                #![trigger side_has_at(side_view(levels@), id, p)]
                side_has_at(side_view(levels@), id, p) ==> side_has_at(v0, id, p),
        decreases need,
    {
        let ghost vc = side_view(levels@);
        let ghost lc = locs_map(locs@);
        let ghost cc = cross(vc, taker_side, taker_id as int, tw, limit as int, need as int);
        proof {
            assert(vc[0] == levels@[0]@);
            assert(vc[0].entries[0] == levels@[0].orders@[0]@);
            assert(level_m_wf(vc[0]));
            assert(entry_m_wf(vc[0].entries[0]));
            assert(cross_step_ok(vc, taker_side, limit as int, need as int));
        }
        let e_id = levels[0].orders[0].order_id;
        let e_size = levels[0].orders[0].size;
        let e_filled = levels[0].orders[0].filled;
        let e_rem = e_size - e_filled;
        let f = if need < e_rem {
            need
        } else {
            e_rem
        };
        let ghost t0 = TradeM {
            maker_order_id: e_id as int,
            maker_wallet: vc[0].entries[0].wallet,
            taker_order_id: taker_id as int,
            taker_wallet: tw,
            price: vc[0].price,
            size: f as int,
            maker_filled_after: e_filled + f,
            maker_size: e_size as int,
        };
        let tm = TradeMatch {
            maker_order_id: e_id,
            maker_wallet: levels[0].orders[0].user_wallet.clone(),
            taker_order_id: taker_id,
            taker_wallet: taker_wallet.clone(),
            price: levels[0].price,
            size: f,
        };
        let mf = MakerFill { order_id: e_id, filled: e_filled + f, size: e_size };
        let ghost trades_pre = trades@;
        let ghost ms_pre = maker_updates@;
        trades.push(tm);
        maker_updates.push(mf);
        proof {
            assert(tm_of(tm, mf) == t0);
            assert(tseq(trades@, maker_updates@) =~= tseq(trades_pre, ms_pre).push(t0));
        }
        need = need - f;
        if f == e_rem {
            let mut lvl = levels.remove(0);
            let taken = lvl.orders.remove(0);
            if lvl.orders.len() > 0 {
                levels.insert(0, lvl);
                proof {
                    assert(side_view(levels@) =~~= levels_take_at(vc, 0, 0));
                }
            } else {
                proof {
                    assert(side_view(levels@) =~~= levels_take_at(vc, 0, 0));
                }
            }
            proof {
                lemma_levels_take_at_post(vc, book_side, 0, 0);
            }
            match crate::orderbook::find_location(locs, e_id) {
                Some(li) => {
                    proof {
                        lemma_locs_map_index(locs@, li as int);
                        lemma_locs_map_remove(locs@, li as int);
                        lemma_locs_unique_remove(locs@, li as int);
                        assert(side_has_at(vc, e_id as int, vc[0].price)) by {
                            assert(level_has_id(vc[0], e_id as int));
                        }
                        assert(lc[e_id as int] == (book_side, vc[0].price));
                        assert(locs@[li as int].order_id == e_id);
                        assert((locs@[li as int].side, locs@[li as int].price as int) == (
                            book_side,
                            vc[0].price,
                        ));
                    }
                    locs.remove(li);
                }
                None => {
                    proof {
                        lemma_locs_map_contains(locs@, e_id as int);
                        assert(side_has_at(vc, e_id as int, vc[0].price)) by {
                            assert(level_has_id(vc[0], e_id as int));
                        }
                        assert(false);
                    }
                }
            }
            proof {
                let oldbm = BookM {
                    market_id: 0,
                    bids: if taker_side == OrderSide::Buy {
                        other@
                    } else {
                        vc
                    },
                    asks: if taker_side == OrderSide::Buy {
                        vc
                    } else {
                        other@
                    },
                    locations: lc,
                    last_price: None,
                };
                let newbm = BookM {
                    market_id: 0,
                    bids: if taker_side == OrderSide::Buy {
                        other@
                    } else {
                        side_view(levels@)
                    },
                    asks: if taker_side == OrderSide::Buy {
                        side_view(levels@)
                    } else {
                        other@
                    },
                    locations: lc.remove(e_id as int),
                    last_price: None,
                };
                assert(book_wf(oldbm));
                crate::orderbook::lemma_remove_order_index_wf(
                    oldbm,
                    newbm,
                    book_side,
                    e_id as int,
                    vc[0].price,
                );
                assert(book_wf(newbm));
            }
        } else {
            let mut lvl = levels.remove(0);
            let mut ent = lvl.orders.remove(0);
            ent.filled = ent.filled + f;
            lvl.orders.insert(0, ent);
            levels.insert(0, lvl);
            proof {
                assert(lvl@.entries =~~= vc[0].entries.update(
                    0,
                    EntryM { filled: vc[0].entries[0].filled + f, ..vc[0].entries[0] },
                ));
                assert(side_view(levels@) =~~= levels_fill_at(vc, 0, 0, f as int));
                lemma_levels_fill_at_post(vc, book_side, 0, 0, f as int);
                crate::orderbook::lemma_index_wf_members(
                    lc,
                    if taker_side == OrderSide::Buy {
                        other@
                    } else {
                        vc
                    },
                    if taker_side == OrderSide::Buy {
                        vc
                    } else {
                        other@
                    },
                    if taker_side == OrderSide::Buy {
                        other@
                    } else {
                        side_view(levels@)
                    },
                    if taker_side == OrderSide::Buy {
                        side_view(levels@)
                    } else {
                        other@
                    },
                );
            }
        }
        proof {
            let rec = cross(
                side_view(levels@),
                taker_side,
                taker_id as int,
                tw,
                limit as int,
                need as int,
            );
            assert(cc.trades == seq![t0] + rec.trades);
            assert(cc.levels == rec.levels);
            assert(cc.residual == rec.residual);
            assert(c0.trades == tseq(trades_pre, ms_pre) + cc.trades);
            assert(tseq(trades_pre, ms_pre) + (seq![t0] + rec.trades) =~= (tseq(
                trades_pre,
                ms_pre,
            ).push(t0)) + rec.trades);
            assert(c0.trades == tseq(trades@, maker_updates@) + rec.trades);
        }
    }
    proof {
        let vcur = side_view(levels@);
        let cend = cross(vcur, taker_side, taker_id as int, tw, limit as int, need as int);
        assert(!cross_step_ok(vcur, taker_side, limit as int, need as int)) by {
            if need > 0 && vcur.len() > 0 {
                assert(vcur[0].price == levels@[0]@.price);
            }
        }
        assert(cend.trades =~= Seq::<TradeM>::empty());
        assert(c0.trades =~= tseq(trades@, maker_updates@));
        assert(c0.levels == vcur);
        assert(c0.residual == need);
    }
    need
}

/// Total size filled by a sequence of trades.
pub open spec fn trades_total(ts: Seq<TradeM>) -> int
    decreases ts.len(),
{
    if ts.len() == 0 {
        0
    } else {
        ts[0].size + trades_total(ts.drop_first())
    }
}

/// Law: a cross accounts exactly for the taker's need — the total traded
/// size plus the residual equals the need, so no cross ever produces more
/// size than the incoming order asked for. Every fill is positive, and no
/// fill takes a maker beyond its own size.
pub proof fn lemma_cross_conservation(
    levels: Seq<LevelM>,
    taker_side: OrderSide,
    taker_id: int,
    taker_wallet: Seq<char>,
    limit: int,
    need: int,
)
    requires
        need >= 0,
    ensures
        ({
            let c = cross(levels, taker_side, taker_id, taker_wallet, limit, need);
            &&& 0 <= c.residual <= need
            &&& trades_total(c.trades) + c.residual == need
            &&& forall|i: int|
                0 <= i < c.trades.len() ==> {
                    let t = #[trigger] c.trades[i];
                    &&& t.size > 0
                    &&& 0 < t.maker_filled_after <= t.maker_size
                    &&& t.taker_order_id == taker_id
                    &&& t.taker_wallet == taker_wallet
                }
        }),
    decreases need,
{
    let c = cross(levels, taker_side, taker_id, taker_wallet, limit, need);
    if cross_step_ok(levels, taker_side, limit, need) {
        let e = levels[0].entries[0];
        let rem = entry_m_remaining(e);
        let f = if need < rem {
            need
        } else {
            rem
        };
        let levels1 = if f == rem {
            levels_take_at(levels, 0, 0)
        } else {
            levels_fill_at(levels, 0, 0, f)
        };
        lemma_cross_conservation(levels1, taker_side, taker_id, taker_wallet, limit, need - f);
        let r = cross(levels1, taker_side, taker_id, taker_wallet, limit, need - f);
        assert(c.trades.drop_first() =~= r.trades);
        assert(trades_total(c.trades) == c.trades[0].size + trades_total(r.trades));
    }
}

/// Law: an incoming order whose limit is strictly worse than the best
/// opposing price trades nothing, keeps its whole need, and leaves the side
/// untouched.
pub proof fn lemma_cross_no_match(
    levels: Seq<LevelM>,
    taker_side: OrderSide,
    taker_id: int,
    taker_wallet: Seq<char>,
    limit: int,
    need: int,
)
    requires
        levels.len() > 0 ==> !price_within(taker_side, levels[0].price, limit),
    ensures
        ({
            let c = cross(levels, taker_side, taker_id, taker_wallet, limit, need);
            &&& c.trades.len() == 0
            &&& c.residual == need
            &&& c.levels == levels
        }),
{
}

/// Law: every fill happens at the maker's resting price — each produced
/// trade names a maker that rested at exactly that price, within the
/// taker's limit, on the side the cross consumed.
pub proof fn lemma_cross_maker_price(
    levels: Seq<LevelM>,
    taker_side: OrderSide,
    taker_id: int,
    taker_wallet: Seq<char>,
    limit: int,
    need: int,
)
    requires
        side_levels_wf(levels, taker_side.opposite_spec()),
    ensures
        ({
            let c = cross(levels, taker_side, taker_id, taker_wallet, limit, need);
            forall|i: int|
                0 <= i < c.trades.len() ==> side_has_at(
                    levels,
                    (#[trigger] c.trades[i]).maker_order_id,
                    c.trades[i].price,
                ) && price_within(taker_side, c.trades[i].price, limit)
        }),
    decreases need,
{
    let c = cross(levels, taker_side, taker_id, taker_wallet, limit, need);
    if cross_step_ok(levels, taker_side, limit, need) {
        let e = levels[0].entries[0];
        let rem = entry_m_remaining(e);
        let f = if need < rem {
            need
        } else {
            rem
        };
        let levels1 = if f == rem {
            levels_take_at(levels, 0, 0)
        } else {
            levels_fill_at(levels, 0, 0, f)
        };
        if f == rem {
            lemma_levels_take_at_post(levels, taker_side.opposite_spec(), 0, 0);
        } else {
            lemma_levels_fill_at_post(levels, taker_side.opposite_spec(), 0, 0, f);
        }
        lemma_cross_maker_price(levels1, taker_side, taker_id, taker_wallet, limit, need - f);
        let r = cross(levels1, taker_side, taker_id, taker_wallet, limit, need - f);
        assert(c.trades[0].maker_order_id == e.order_id && c.trades[0].price == levels[0].price);
        assert(level_has_id(levels[0], e.order_id)) by {
            assert(levels[0].entries[0].order_id == e.order_id);
        }
        assert(side_has_at(levels, e.order_id, levels[0].price));
        assert forall|i: int| 1 <= i < c.trades.len() implies side_has_at(
            levels,
            (#[trigger] c.trades[i]).maker_order_id,
            c.trades[i].price,
        ) && price_within(taker_side, c.trades[i].price, limit) by {
            assert(c.trades[i] == r.trades[i - 1]);
            assert(side_has_at(levels1, r.trades[i - 1].maker_order_id, r.trades[i - 1].price));
        }
    }
}

/// Law: when residual remains after a cross, every remaining opposing level
/// is strictly outside the taker's limit — unfilled size coexists only with
/// unacceptable prices.
pub proof fn lemma_cross_residual_outside(
    levels: Seq<LevelM>,
    taker_side: OrderSide,
    taker_id: int,
    taker_wallet: Seq<char>,
    limit: int,
    need: int,
)
    requires
        side_levels_wf(levels, taker_side.opposite_spec()),
    ensures
        ({
            let c = cross(levels, taker_side, taker_id, taker_wallet, limit, need);
            c.residual > 0 ==> forall|k: int|
                0 <= k < c.levels.len() ==> !price_within(
                    taker_side,
                    (#[trigger] c.levels[k]).price,
                    limit,
                )
        }),
    decreases need,
{
    let c = cross(levels, taker_side, taker_id, taker_wallet, limit, need);
    if cross_step_ok(levels, taker_side, limit, need) {
        let e = levels[0].entries[0];
        let rem = entry_m_remaining(e);
        let f = if need < rem {
            need
        } else {
            rem
        };
        let levels1 = if f == rem {
            levels_take_at(levels, 0, 0)
        } else {
            levels_fill_at(levels, 0, 0, f)
        };
        if f == rem {
            lemma_levels_take_at_post(levels, taker_side.opposite_spec(), 0, 0);
        } else {
            lemma_levels_fill_at_post(levels, taker_side.opposite_spec(), 0, 0, f);
        }
        lemma_cross_residual_outside(levels1, taker_side, taker_id, taker_wallet, limit, need - f);
    } else {
        if c.residual > 0 && levels.len() > 0 && price_within(taker_side, levels[0].price, limit) {
            assert(!cross_step_ok(levels, taker_side, limit, need));
            assert(level_m_wf(levels[0]));
            assert(entry_m_wf(levels[0].entries[0]));
            assert(false);
        }
        assert forall|k: int| 0 <= k < c.levels.len() && c.residual > 0 implies !price_within(
            taker_side,
            (#[trigger] c.levels[k]).price,
            limit,
        ) by {
            if k > 0 && price_within(taker_side, c.levels[k].price, limit) {
                assert(price_before(
                    taker_side.opposite_spec(),
                    levels[0].price,
                    levels[k].price,
                ));
            }
        }
    }
}

/// Whether some level on the side rests at price `p`.
pub open spec fn side_has_price(levels: Seq<LevelM>, p: int) -> bool {
    exists|k: int| 0 <= k < levels.len() && (#[trigger] levels[k]).price == p
}

/// Every price in the side a cross leaves behind was a resting price before
/// the cross began.
pub proof fn lemma_cross_prices_subset(
    levels: Seq<LevelM>,
    taker_side: OrderSide,
    taker_id: int,
    taker_wallet: Seq<char>,
    limit: int,
    need: int,
)
    ensures
        ({
            let c = cross(levels, taker_side, taker_id, taker_wallet, limit, need);
            forall|k: int|
                0 <= k < c.levels.len() ==> side_has_price(levels, (#[trigger] c.levels[k]).price)
        }),
    decreases need,
{
    let c = cross(levels, taker_side, taker_id, taker_wallet, limit, need);
    if cross_step_ok(levels, taker_side, limit, need) {
        let e = levels[0].entries[0];
        let rem = entry_m_remaining(e);
        let f = if need < rem {
            need
        } else {
            rem
        };
        let levels1 = if f == rem {
            levels_take_at(levels, 0, 0)
        } else {
            levels_fill_at(levels, 0, 0, f)
        };
        lemma_cross_prices_subset(levels1, taker_side, taker_id, taker_wallet, limit, need - f);
        assert forall|k: int| 0 <= k < c.levels.len() implies side_has_price(
            levels,
            (#[trigger] c.levels[k]).price,
        ) by {
            let r = cross(levels1, taker_side, taker_id, taker_wallet, limit, need - f);
            assert(c.levels == r.levels);
            assert(side_has_price(levels1, r.levels[k].price));
            let k1 = choose|k1: int|
                0 <= k1 < levels1.len() && (#[trigger] levels1[k1]).price == c.levels[k].price;
            if f == rem && levels[0].entries.len() == 1 {
                assert(levels[k1 + 1].price == c.levels[k].price);
            } else {
                if k1 == 0 {
                    assert(levels[0].price == c.levels[k].price);
                } else {
                    assert(levels[k1].price == c.levels[k].price);
                }
            }
        }
    } else {
        assert forall|k: int| 0 <= k < c.levels.len() implies side_has_price(
            levels,
            (#[trigger] c.levels[k]).price,
        ) by {
            assert(levels[k].price == c.levels[k].price);
        }
    }
}

/// Law: no crossed book at rest, buy side. Starting from an uncrossed book,
/// crossing a buy against the asks and resting its residual at the buy's
/// limit leaves the best bid strictly below the best ask.
pub proof fn lemma_place_buy_uncrossed(
    bids: Seq<LevelM>,
    asks: Seq<LevelM>,
    taker_id: int,
    taker_wallet: Seq<char>,
    limit: int,
    need: int,
    e: EntryM,
)
    requires
        side_levels_wf(bids, OrderSide::Buy),
        side_levels_wf(asks, OrderSide::Sell),
        bids.len() > 0 && asks.len() > 0 ==> bids[0].price < asks[0].price,
    ensures
        ({
            let c = cross(asks, OrderSide::Buy, taker_id, taker_wallet, limit, need);
            let newbids = levels_add(bids, OrderSide::Buy, limit, e);
            c.residual > 0 && newbids.len() > 0 && c.levels.len() > 0 ==> newbids[0].price
                < c.levels[0].price
        }),
{
    let c = cross(asks, OrderSide::Buy, taker_id, taker_wallet, limit, need);
    let newbids = levels_add(bids, OrderSide::Buy, limit, e);
    lemma_cross_residual_outside(asks, OrderSide::Buy, taker_id, taker_wallet, limit, need);
    lemma_cross_prices_subset(asks, OrderSide::Buy, taker_id, taker_wallet, limit, need);
    if c.residual > 0 && newbids.len() > 0 && c.levels.len() > 0 {
        assert(!price_within(OrderSide::Buy, c.levels[0].price, limit));
        assert(c.levels[0].price > limit);
        assert(side_has_price(asks, c.levels[0].price));
        let k0 = choose|k0: int|
            0 <= k0 < asks.len() && (#[trigger] asks[k0]).price == c.levels[0].price;
        if bids.len() > 0 && price_before(OrderSide::Buy, bids[0].price, limit) {
            crate::orderbook::lemma_insert_index_bounds(bids.drop_first(), OrderSide::Buy, limit);
            crate::orderbook::lemma_insert_index_bounds(bids, OrderSide::Buy, limit);
            assert(level_insert_index(bids, OrderSide::Buy, limit) == 1 + level_insert_index(
                bids.drop_first(),
                OrderSide::Buy,
                limit,
            ));
            assert(newbids[0] == bids[0]);
            assert(asks[0].price <= asks[k0].price);
            assert(newbids[0].price < c.levels[0].price);
        } else {
            assert(level_insert_index(bids, OrderSide::Buy, limit) == 0);
            assert(newbids[0].price == limit);
        }
    }
}

/// Law: no crossed book at rest, sell side. Starting from an uncrossed
/// book, crossing a sell against the bids and resting its residual at the
/// sell's limit leaves the best bid strictly below the best ask.
pub proof fn lemma_place_sell_uncrossed(
    bids: Seq<LevelM>,
    asks: Seq<LevelM>,
    taker_id: int,
    taker_wallet: Seq<char>,
    limit: int,
    need: int,
    e: EntryM,
)
    requires
        side_levels_wf(bids, OrderSide::Buy),
        side_levels_wf(asks, OrderSide::Sell),
        bids.len() > 0 && asks.len() > 0 ==> bids[0].price < asks[0].price,
    ensures
        ({
            let c = cross(bids, OrderSide::Sell, taker_id, taker_wallet, limit, need);
            let newasks = levels_add(asks, OrderSide::Sell, limit, e);
            c.residual > 0 && newasks.len() > 0 && c.levels.len() > 0 ==> c.levels[0].price
                < newasks[0].price
        }),
{
    let c = cross(bids, OrderSide::Sell, taker_id, taker_wallet, limit, need);
    let newasks = levels_add(asks, OrderSide::Sell, limit, e);
    lemma_cross_residual_outside(bids, OrderSide::Sell, taker_id, taker_wallet, limit, need);
    lemma_cross_prices_subset(bids, OrderSide::Sell, taker_id, taker_wallet, limit, need);
    if c.residual > 0 && newasks.len() > 0 && c.levels.len() > 0 {
        assert(!price_within(OrderSide::Sell, c.levels[0].price, limit));
        assert(c.levels[0].price < limit);
        assert(side_has_price(bids, c.levels[0].price));
        let k0 = choose|k0: int|
            0 <= k0 < bids.len() && (#[trigger] bids[k0]).price == c.levels[0].price;
        if asks.len() > 0 && price_before(OrderSide::Sell, asks[0].price, limit) {
            crate::orderbook::lemma_insert_index_bounds(asks.drop_first(), OrderSide::Sell, limit);
            crate::orderbook::lemma_insert_index_bounds(asks, OrderSide::Sell, limit);
            assert(level_insert_index(asks, OrderSide::Sell, limit) == 1 + level_insert_index(
                asks.drop_first(),
                OrderSide::Sell,
                limit,
            ));
            assert(newasks[0] == asks[0]);
            assert(bids[k0].price <= bids[0].price);
            assert(c.levels[0].price < newasks[0].price);
        } else {
            assert(level_insert_index(asks, OrderSide::Sell, limit) == 0);
            assert(newasks[0].price == limit);
        }
    }
}

/// Total remaining size across the levels a taker's limit can reach.
pub open spec fn acceptable_total(levels: Seq<LevelM>, taker_side: OrderSide, limit: int) -> int
    decreases levels.len(),
{
    if levels.len() == 0 {
        0
    } else {
        (if price_within(taker_side, levels[0].price, limit) {
            crate::orderbook::entries_remaining_total(levels[0].entries)
        } else {
            0
        }) + acceptable_total(levels.drop_first(), taker_side, limit)
    }
}

/// A level queue's total remaining size splits off its head entry.
pub proof fn lemma_total_split_head(es: Seq<EntryM>)
    requires
        es.len() > 0,
    ensures
        crate::orderbook::entries_remaining_total(es) == entry_m_remaining(es[0])
            + crate::orderbook::entries_remaining_total(es.drop_first()),
    decreases es.len(),
{
    if es.len() > 1 {
        lemma_total_split_head(es.drop_last());
        assert(es.drop_last().drop_first() =~= es.drop_first().drop_last());
        assert(es.drop_last()[0] == es[0]);
        assert(es.drop_first().last() == es.last());
        assert(crate::orderbook::entries_remaining_total(es.drop_first())
            == crate::orderbook::entries_remaining_total(es.drop_first().drop_last())
            + entry_m_remaining(es.drop_first().last()));
    } else {
        assert(es.drop_first() =~= Seq::<EntryM>::empty());
        assert(es.drop_last() =~= Seq::<EntryM>::empty());
        assert(es.last() == es[0]);
    }
}

/// On a side sorted for the taker's consumption, an unacceptable head price
/// means no acceptable liquidity at all.
pub proof fn lemma_acceptable_total_zero(levels: Seq<LevelM>, taker_side: OrderSide, limit: int)
    requires
        side_levels_wf(levels, taker_side.opposite_spec()),
        levels.len() > 0 ==> !price_within(taker_side, levels[0].price, limit),
    ensures
        acceptable_total(levels, taker_side, limit) == 0,
    decreases levels.len(),
{
    if levels.len() > 0 {
        assert(side_levels_wf(levels.drop_first(), taker_side.opposite_spec())) by {
            assert(forall|k: int|
                0 <= k < levels.drop_first().len() ==> (#[trigger] levels.drop_first()[k])
                    == levels[k + 1]);
        }
        if levels.len() > 1 {
            assert(price_before(taker_side.opposite_spec(), levels[0].price, levels[1].price));
            assert(levels.drop_first()[0] == levels[1]);
        }
        lemma_acceptable_total_zero(levels.drop_first(), taker_side, limit);
    }
}

/// A cross consumes acceptable liquidity exactly: what it leaves within the
/// limit is what was there minus what traded.
pub proof fn lemma_cross_liquidity(
    levels: Seq<LevelM>,
    taker_side: OrderSide,
    taker_id: int,
    taker_wallet: Seq<char>,
    limit: int,
    need: int,
)
    requires
        side_levels_wf(levels, taker_side.opposite_spec()),
        need >= 0,
    ensures
        ({
            let c = cross(levels, taker_side, taker_id, taker_wallet, limit, need);
            acceptable_total(c.levels, taker_side, limit) == acceptable_total(
                levels,
                taker_side,
                limit,
            ) - (need - c.residual)
        }),
    decreases need,
{
    let c = cross(levels, taker_side, taker_id, taker_wallet, limit, need);
    if cross_step_ok(levels, taker_side, limit, need) {
        let e = levels[0].entries[0];
        let rem = entry_m_remaining(e);
        let f = if need < rem {
            need
        } else {
            rem
        };
        let levels1 = if f == rem {
            levels_take_at(levels, 0, 0)
        } else {
            levels_fill_at(levels, 0, 0, f)
        };
        if f == rem {
            lemma_levels_take_at_post(levels, taker_side.opposite_spec(), 0, 0);
        } else {
            lemma_levels_fill_at_post(levels, taker_side.opposite_spec(), 0, 0, f);
        }
        lemma_cross_liquidity(levels1, taker_side, taker_id, taker_wallet, limit, need - f);
        lemma_total_split_head(levels[0].entries);
        if f == rem {
            if levels[0].entries.len() == 1 {
                assert(levels1 =~= levels.drop_first());
                assert(crate::orderbook::entries_remaining_total(levels[0].entries) == rem) by {
                    assert(levels[0].entries.drop_first() =~= Seq::<EntryM>::empty());
                }
            } else {
                assert(levels1[0].entries =~= levels[0].entries.drop_first());
                assert(levels1.drop_first() =~= levels.drop_first());
                lemma_total_split_head(levels1[0].entries.push(e));
                assert(acceptable_total(levels1, taker_side, limit) == crate::orderbook::entries_remaining_total(
                    levels1[0].entries,
                ) + acceptable_total(levels1.drop_first(), taker_side, limit));
            }
        } else {
            assert(levels1[0].entries =~= levels[0].entries.update(
                0,
                EntryM { filled: e.filled + f, ..e },
            ));
            assert(levels1.drop_first() =~= levels.drop_first());
            lemma_total_split_head(levels1[0].entries);
            assert(levels1[0].entries.drop_first() =~= levels[0].entries.drop_first());
        }
    } else {
        assert(c.levels == levels && c.residual == need);
    }
}

/// Law: an incoming order whose size matches the acceptable liquidity, or
/// less, fills completely; matching exactly the aggregate remaining at
/// acceptable prices empties those prices out.
pub proof fn lemma_cross_exhausts(
    levels: Seq<LevelM>,
    taker_side: OrderSide,
    taker_id: int,
    taker_wallet: Seq<char>,
    limit: int,
    need: int,
)
    requires
        side_levels_wf(levels, taker_side.opposite_spec()),
        0 <= need <= acceptable_total(levels, taker_side, limit),
    ensures
        ({
            let c = cross(levels, taker_side, taker_id, taker_wallet, limit, need);
            &&& c.residual == 0
            &&& need == acceptable_total(levels, taker_side, limit) ==> acceptable_total(
                c.levels,
                taker_side,
                limit,
            ) == 0
        }),
    decreases need,
{
    let c = cross(levels, taker_side, taker_id, taker_wallet, limit, need);
    lemma_cross_liquidity(levels, taker_side, taker_id, taker_wallet, limit, need);
    if need > 0 {
        if levels.len() == 0 {
            assert(acceptable_total(levels, taker_side, limit) == 0);
            assert(false);
        }
        if !price_within(taker_side, levels[0].price, limit) {
            lemma_acceptable_total_zero(levels, taker_side, limit);
            assert(false);
        }
        assert(level_m_wf(levels[0]));
        assert(cross_step_ok(levels, taker_side, limit, need));
        let e = levels[0].entries[0];
        let rem = entry_m_remaining(e);
        let f = if need < rem {
            need
        } else {
            rem
        };
        let levels1 = if f == rem {
            levels_take_at(levels, 0, 0)
        } else {
            levels_fill_at(levels, 0, 0, f)
        };
        if f == rem {
            lemma_levels_take_at_post(levels, taker_side.opposite_spec(), 0, 0);
        } else {
            lemma_levels_fill_at_post(levels, taker_side.opposite_spec(), 0, 0, f);
        }
        lemma_cross_liquidity(levels1, taker_side, taker_id, taker_wallet, limit, need - f);
        assert(acceptable_total(levels1, taker_side, limit) == acceptable_total(
            levels,
            taker_side,
            limit,
        ) - f) by {
            lemma_cross_liquidity(levels, taker_side, taker_id, taker_wallet, limit, need);
            let c1 = cross(levels1, taker_side, taker_id, taker_wallet, limit, need - f);
            assert(c.levels == c1.levels && c.residual == c1.residual);
        }
        lemma_cross_exhausts(levels1, taker_side, taker_id, taker_wallet, limit, need - f);
    }
}

/// The opposing side's resting entries, flattened in consumption order:
/// best level first, FIFO within a level.
pub open spec fn flatten_entries(levels: Seq<LevelM>) -> Seq<EntryM>
    decreases levels.len(),
{
    if levels.len() == 0 {
        Seq::empty()
    } else {
        levels[0].entries + flatten_entries(levels.drop_first())
    }
}

/// Law: strict price-time priority. The i-th trade of a cross consumes
/// exactly the i-th resting entry in consumption order, so an entry is
/// never passed over: whenever a later entry trades, every entry ahead of
/// it traded first. Each fill also accounts for the maker exactly: its
/// cumulative fill afterwards is what rested plus the trade's size.
pub proof fn lemma_cross_fifo(
    levels: Seq<LevelM>,
    taker_side: OrderSide,
    taker_id: int,
    taker_wallet: Seq<char>,
    limit: int,
    need: int,
)
    requires
        side_levels_wf(levels, taker_side.opposite_spec()),
    ensures
        ({
            let c = cross(levels, taker_side, taker_id, taker_wallet, limit, need);
            &&& c.trades.len() <= flatten_entries(levels).len()
            &&& forall|i: int|
                0 <= i < c.trades.len() ==> {
                    let t = #[trigger] c.trades[i];
                    &&& t.maker_order_id == flatten_entries(levels)[i].order_id
                    &&& t.maker_wallet == flatten_entries(levels)[i].wallet
                    &&& t.maker_size == flatten_entries(levels)[i].size
                    &&& t.maker_filled_after == flatten_entries(levels)[i].filled + t.size
                }
        }),
    decreases need,
{
    let c = cross(levels, taker_side, taker_id, taker_wallet, limit, need);
    let fl = flatten_entries(levels);
    if cross_step_ok(levels, taker_side, limit, need) {
        let e = levels[0].entries[0];
        let rem = entry_m_remaining(e);
        let f = if need < rem {
            need
        } else {
            rem
        };
        let levels1 = if f == rem {
            levels_take_at(levels, 0, 0)
        } else {
            levels_fill_at(levels, 0, 0, f)
        };
        assert(fl[0] == e) by {
            assert(fl == levels[0].entries + flatten_entries(levels.drop_first()));
        }
        if f == rem {
            lemma_levels_take_at_post(levels, taker_side.opposite_spec(), 0, 0);
            lemma_cross_fifo(levels1, taker_side, taker_id, taker_wallet, limit, need - f);
            assert(flatten_entries(levels1) =~= fl.drop_first()) by {
                if levels[0].entries.len() == 1 {
                    assert(levels1 =~= levels.drop_first());
                    assert(fl == levels[0].entries + flatten_entries(levels.drop_first()));
                } else {
                    assert(levels1[0].entries =~= levels[0].entries.drop_first());
                    assert(levels1.drop_first() =~= levels.drop_first());
                    assert(flatten_entries(levels1) == levels1[0].entries + flatten_entries(
                        levels1.drop_first(),
                    ));
                    assert(fl == levels[0].entries + flatten_entries(levels.drop_first()));
                }
            }
            let r = cross(levels1, taker_side, taker_id, taker_wallet, limit, need - f);
            assert forall|i: int| 1 <= i < c.trades.len() implies {
                let t = #[trigger] c.trades[i];
                &&& t.maker_order_id == fl[i].order_id
                &&& t.maker_wallet == fl[i].wallet
                &&& t.maker_size == fl[i].size
                &&& t.maker_filled_after == fl[i].filled + t.size
            } by {
                assert(c.trades[i] == r.trades[i - 1]);
                assert(flatten_entries(levels1)[i - 1] == fl[i]);
            }
        } else {
            assert(need - f == 0);
            let r = cross(levels1, taker_side, taker_id, taker_wallet, limit, 0);
            assert(!cross_step_ok(levels1, taker_side, limit, 0));
            assert(r.trades =~= Seq::<TradeM>::empty());
            assert(c.trades =~= seq![c.trades[0]]);
            assert(fl.len() >= 1);
        }
    }
}

/// The engine: a pure crossing function over one book.
pub struct MatchingEngine;

impl MatchingEngine {
    /// Cross `incoming` against `orderbook`, producing the trades, the
    /// makers' updated fill states, and the incoming order's residual size.
    /// The book keeps its invariant; the consumed side is left exactly as
    /// the `cross` model function says; the last trade price is recorded
    /// when anything executed.
    pub fn match_order(orderbook: &mut Orderbook, incoming: &Order) -> (r: MatchResult)
        requires
            old(orderbook).wf(),
            incoming.filled <= incoming.size,
        ensures
            final(orderbook).wf(),
            ({
                let c = cross(
                    if incoming.side == OrderSide::Buy {
                        old(orderbook)@.asks
                    } else {
                        old(orderbook)@.bids
                    },
                    incoming.side,
                    incoming.order_id as int,
                    incoming.user_wallet@,
                    incoming.price as int,
                    incoming.size - incoming.filled,
                );
                &&& r.remaining_size == c.residual
                &&& r.trades@.len() == c.trades.len()
                &&& r.maker_updates@.len() == c.trades.len()
                &&& tseq(r.trades@, r.maker_updates@) == c.trades
                &&& (if incoming.side == OrderSide::Buy {
                    final(orderbook)@.asks == c.levels && final(orderbook)@.bids == old(
                        orderbook,
                    )@.bids
                } else {
                    final(orderbook)@.bids == c.levels && final(orderbook)@.asks == old(
                        orderbook,
                    )@.asks
                })
                &&& final(orderbook)@.market_id == old(orderbook)@.market_id
                &&& (if c.trades.len() > 0 {
                    final(orderbook)@.last_price == Some(c.trades.last().price)
                } else {
                    final(orderbook)@.last_price == old(orderbook)@.last_price
                })
                &&& (forall|id: int, p: int|
                    #![trigger side_has_at(final(orderbook)@.asks, id, p)]
                    side_has_at(final(orderbook)@.asks, id, p) ==> side_has_at(
                        old(orderbook)@.asks,
                        id,
                        p,
                    ))
                &&& (forall|id: int, p: int|
                    #![trigger side_has_at(final(orderbook)@.bids, id, p)]
                    side_has_at(final(orderbook)@.bids, id, p) ==> side_has_at(
                        old(orderbook)@.bids,
                        id,
                        p,
                    ))
            }),
    {
        let ghost oldb = orderbook@;
        let mut trades: Vec<TradeMatch> = Vec::new();
        let mut maker_updates: Vec<MakerFill> = Vec::new();
        let need0 = incoming.size - incoming.filled;
        let residual = match incoming.side {
            OrderSide::Buy => cross_side(
                &mut orderbook.asks,
                &mut orderbook.order_locations,
                OrderSide::Buy,
                incoming.order_id,
                &incoming.user_wallet,
                incoming.price,
                need0,
                &mut trades,
                &mut maker_updates,
                Ghost(oldb.bids),
            ),
            OrderSide::Sell => cross_side(
                &mut orderbook.bids,
                &mut orderbook.order_locations,
                OrderSide::Sell,
                incoming.order_id,
                &incoming.user_wallet,
                incoming.price,
                need0,
                &mut trades,
                &mut maker_updates,
                Ghost(oldb.asks),
            ),
        };
        if trades.len() > 0 {
            let last_price = trades[trades.len() - 1].price;
            proof {
                let c = cross(
                    if incoming.side == OrderSide::Buy {
                        oldb.asks
                    } else {
                        oldb.bids
                    },
                    incoming.side,
                    incoming.order_id as int,
                    incoming.user_wallet@,
                    incoming.price as int,
                    need0 as int,
                );
                assert(tseq(trades@, maker_updates@)[c.trades.len() - 1] == c.trades.last());
                assert(last_price == c.trades.last().price);
            }
            orderbook.set_last_price(last_price);
        }
        MatchResult { trades, remaining_size: residual, maker_updates }
    }
}

} // verus!
