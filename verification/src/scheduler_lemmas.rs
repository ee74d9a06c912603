//! What the engine guarantees, stated of its transitions and proved.

use vstd::prelude::*;
use crate::piece::{comes_before, lemma_order_total};
use crate::scheduler::{
    cancels_for, count, lemma_count, lemma_split, lemma_without_distinct, of_block, of_peer,
    of_request, only, overdue, same_request, BlockRequest, InFlight, Probe, SchedulerView,
};

verus! {

/// Whether a block is asked for by a request that does not meet `probe`.
pub open spec fn asked_otherwise(table: Seq<InFlight>, piece: usize, block: usize, probe: Probe) -> bool {
    exists|k: int|
        0 <= k < table.len() && of_block(piece, block).matches(#[trigger] table[k])
            && !probe.matches(table[k])
}

/// Whether no block is asked of two peers at once.
pub open spec fn single_source(table: Seq<InFlight>) -> bool {
    forall|i: int, j: int|
        0 <= i < table.len() && 0 <= j < table.len() && (#[trigger] table[i]).piece == (
        #[trigger] table[j]).piece && table[i].block == table[j].block ==> table[i].peer
            == table[j].peer
}

/// When requests are given up, their blocks go back to the pool of blocks
/// that wait to be asked for, and nothing else changes.
///
/// The requests taken out are as many as met the pattern, and the table
/// shrinks by exactly that number; none that meets the pattern is left.
/// None of their blocks was in the pool before. Each of their blocks is in
/// the pool afterwards unless a request that stays asks for it as well. No
/// block leaves the pool, and no other block enters it.
pub proof fn lemma_release_returns_to_pool(v: SchedulerView, probe: Probe)
    requires
        v.wf(),
    ensures
        ({
            let gone = only(v.in_flight, probe);
            let w = v.released(probe);
            &&& gone.len() == count(v.in_flight, probe)
            &&& w.in_flight.len() + gone.len() == v.in_flight.len()
            &&& count(w.in_flight, probe) == 0
            &&& forall|i: int|
                0 <= i < gone.len() ==> {
                    let e = #[trigger] gone[i];
                    &&& v.missing(e.piece as int, e.block as int)
                    &&& !v.in_pool(e.piece as int, e.block as int)
                    &&& w.in_pool(e.piece as int, e.block as int) <==> !asked_otherwise(
                        v.in_flight,
                        e.piece,
                        e.block,
                        probe,
                    )
                }
            &&& forall|p: usize, b: usize|
                v.in_pool(p as int, b as int) ==> #[trigger] w.in_pool(p as int, b as int)
            &&& forall|p: usize, b: usize| #[trigger]
                w.in_pool(p as int, b as int) && !v.in_pool(p as int, b as int) ==> exists|i: int|
                    0 <= i < gone.len() && (#[trigger] gone[i]).piece == p && gone[i].block == b
        }),
{
    let table = v.in_flight;
    let gone = only(table, probe);
    let w = v.released(probe);
    let kept = w.in_flight;
    lemma_split(table, probe);
    lemma_count(kept, probe);
    assert(count(kept, probe) == 0) by {
        if count(kept, probe) > 0 {
            let k = choose|k: int| 0 <= k < kept.len() && probe.matches(#[trigger] kept[k]);
            assert(kept.contains(kept[k]));
        }
    }
    assert forall|p: usize, b: usize|
        (count(kept, of_block(p, b)) == 0 <==> !asked_otherwise(table, p, b, probe)) by {
        lemma_count(kept, of_block(p, b));
        if count(kept, of_block(p, b)) > 0 {
            let k = choose|k: int| 0 <= k < kept.len() && of_block(p, b).matches(#[trigger] kept[k]);
            assert(kept.contains(kept[k]));
            assert(table.contains(kept[k]));
            let j = choose|j: int| 0 <= j < table.len() && table[j] == kept[k];
            assert(of_block(p, b).matches(table[j]) && !probe.matches(table[j]));
        }
        if asked_otherwise(table, p, b, probe) {
            let j = choose|j: int|
                0 <= j < table.len() && of_block(p, b).matches(#[trigger] table[j])
                    && !probe.matches(table[j]);
            assert(table.contains(table[j]));
            assert(kept.contains(table[j]));
            let k = choose|k: int| 0 <= k < kept.len() && kept[k] == table[j];
            assert(of_block(p, b).matches(kept[k]));
        }
    }
    assert forall|i: int| 0 <= i < gone.len() implies {
        let e = #[trigger] gone[i];
        &&& v.missing(e.piece as int, e.block as int)
        &&& !v.in_pool(e.piece as int, e.block as int)
        &&& w.in_pool(e.piece as int, e.block as int) <==> !asked_otherwise(
            v.in_flight,
            e.piece,
            e.block,
            probe,
        )
    } by {
        let e = gone[i];
        assert(gone.contains(e));
        assert(table.contains(e));
        let j = choose|j: int| 0 <= j < table.len() && table[j] == e;
        assert(v.entry_ok(table[j]));
        lemma_count(table, of_block(e.piece, e.block));
        assert(of_block(e.piece, e.block).matches(table[j]));
    }
    assert forall|p: usize, b: usize| v.in_pool(p as int, b as int) implies #[trigger] w.in_pool(
        p as int,
        b as int,
    ) by {
        lemma_count(kept, of_block(p, b));
        if count(kept, of_block(p, b)) > 0 {
            let k = choose|k: int| 0 <= k < kept.len() && of_block(p, b).matches(#[trigger] kept[k]);
            assert(kept.contains(kept[k]));
            assert(table.contains(kept[k]));
            let j = choose|j: int| 0 <= j < table.len() && table[j] == kept[k];
            lemma_count(table, of_block(p, b));
            assert(of_block(p, b).matches(table[j]));
        }
    }
    assert forall|p: usize, b: usize| #[trigger]
        w.in_pool(p as int, b as int) && !v.in_pool(p as int, b as int) implies exists|i: int|
        0 <= i < gone.len() && (#[trigger] gone[i]).piece == p && gone[i].block == b by {
        lemma_count(table, of_block(p, b));
        let j = choose|j: int| 0 <= j < table.len() && of_block(p, b).matches(#[trigger] table[j]);
        if !probe.matches(table[j]) {
            assert(asked_otherwise(table, p, b, probe));
        }
        assert(table.contains(table[j]));
        assert(gone.contains(table[j]));
        let i = choose|i: int| 0 <= i < gone.len() && gone[i] == table[j];
        assert(gone[i].piece == p && gone[i].block == b);
    }
}

/// The requests that were under way with one peer ask for different blocks
/// each. Where no block is asked of two peers at once, every one of those
/// blocks is in the pool once the peer is dropped or chokes: with `N`
/// requests under way `N` blocks come back, none twice and none lost.
pub proof fn lemma_release_of_peer(v: SchedulerView, x: usize)
    requires
        v.wf(),
    ensures
        ({
            let gone = only(v.in_flight, of_peer(x));
            let w = v.released(of_peer(x));
            &&& forall|i: int, j: int|
                0 <= i < j < gone.len() ==> !((#[trigger] gone[i]).piece == (#[trigger] gone[j]).piece
                    && gone[i].block == gone[j].block)
            &&& single_source(v.in_flight) ==> forall|i: int|
                0 <= i < gone.len() ==> w.in_pool(
                    (#[trigger] gone[i]).piece as int,
                    gone[i].block as int,
                )
        }),
{
    let table = v.in_flight;
    let gone = only(table, of_peer(x));
    lemma_release_returns_to_pool(v, of_peer(x));
    lemma_split(table, of_peer(x));
    lemma_without_distinct(table, of_peer(x));
    assert forall|i: int, j: int| 0 <= i < j < gone.len() implies !((#[trigger] gone[i]).piece == (
    #[trigger] gone[j]).piece && gone[i].block == gone[j].block) by {
        assert(gone.contains(gone[i]) && gone.contains(gone[j]));
        assert(!same_request(gone[i], gone[j]));
    }
    if single_source(table) {
        assert forall|i: int| 0 <= i < gone.len() implies !asked_otherwise(
            table,
            (#[trigger] gone[i]).piece,
            gone[i].block,
            of_peer(x),
        ) by {
            let e = gone[i];
            assert(gone.contains(e));
            assert(table.contains(e));
            let j = choose|j: int| 0 <= j < table.len() && table[j] == e;
            if asked_otherwise(table, e.piece, e.block, of_peer(x)) {
                let k = choose|k: int|
                    0 <= k < table.len() && of_block(e.piece, e.block).matches(#[trigger] table[k])
                        && !of_peer(x).matches(table[k]);
                assert(table[k].peer == table[j].peer);
            }
        }
    }
}

/// Whether a block waits to be asked for depends on what has arrived and
/// on what is asked for, not on who is connected or chokes: a peer that is
/// dropped, a peer that chokes and requests that are left unanswered for too
/// long all return blocks to the pool as giving up their requests does.
pub proof fn lemma_pool_after_events(v: SchedulerView, x: usize, cutoff: u64, p: int, b: int)
    ensures
        v.dropped(x as int).in_pool(p, b) == v.released(of_peer(x)).in_pool(p, b),
        v.choked(x as int, true).released(of_peer(x)).in_pool(p, b) == v.released(
            of_peer(x),
        ).in_pool(p, b),
        v.expired(cutoff).in_pool(p, b) == v.released(overdue(cutoff)).in_pool(p, b),
{
}

/// At all times every request under way asks for a block that is still to
/// be had, of a peer that is connected, serves us and holds the piece; no
/// block is asked twice of the same peer; and no peer is asked for more
/// blocks at a time than the pipeline takes.
pub proof fn lemma_requests_in_order(v: SchedulerView, i: int, j: int, x: usize)
    requires
        v.wf(),
        0 <= i < v.in_flight.len(),
        0 <= j < v.in_flight.len(),
        i != j,
    ensures
        v.missing(v.in_flight[i].piece as int, v.in_flight[i].block as int),
        v.in_flight[i].peer < v.peers.len(),
        v.peers[v.in_flight[i].peer as int].connected,
        !v.peers[v.in_flight[i].peer as int].choking,
        v.pieces[v.in_flight[i].piece as int].peers.contains(v.in_flight[i].peer),
        !same_request(v.in_flight[i], v.in_flight[j]),
        count(v.in_flight, of_peer(x)) <= v.settings.pipeline_depth,
{
    assert(v.entry_ok(v.in_flight[i]));
    if i < j {
        assert(!same_request(v.in_flight[i], v.in_flight[j]));
    } else {
        assert(!same_request(v.in_flight[j], v.in_flight[i]));
    }
}

/// A block that is asked of one peer already is asked of a second one only
/// when the end of the download is near; and then it can be asked of every
/// peer that holds the piece, can take a request, is trusted as far as
/// need be, and was not asked for it yet.
pub proof fn lemma_second_request_in_endgame(v: SchedulerView, p: int, b: int, x: int)
    requires
        count(v.in_flight, of_block(p as usize, b as usize)) > 0,
    ensures
        v.candidate(p, b, x) ==> v.endgame(),
        v.endgame() && v.missing(p, b) && v.pieces[p].peers.contains(x as usize) && v.ready(x) && (
        !v.flagged(x) || !v.has_trusted_holder(p)) && count(
            v.in_flight,
            of_request(p as usize, b as usize, x as usize),
        ) == 0 ==> v.candidate(p, b, x),
{
}

/// When a block arrives that was expected, nothing is asked for it of
/// anybody any more, and for each other peer that it was asked of there is
/// a request to withdraw.
pub proof fn lemma_receipt_cancels_others(
    v: SchedulerView,
    peer: usize,
    piece: usize,
    begin: usize,
    data: Seq<u8>,
    e: InFlight,
)
    requires
        v.wf(),
        v.expects(peer as int, piece as int, begin as int, data.len() as int),
        v.in_flight.contains(e),
        e.piece == piece,
        e.block == begin / v.settings.block_size,
        e.peer != peer,
    ensures
        ({
            let block = (begin / v.settings.block_size) as usize;
            let w = v.received(peer as int, piece as int, begin as int, data);
            &&& count(w.in_flight, of_block(piece, block)) == 0
            &&& cancels_for(v.in_flight, piece, block, peer, begin, data.len() as usize).contains(
                BlockRequest { peer: e.peer, piece, begin, length: data.len() as usize },
            )
        }),
{
    let block = (begin / v.settings.block_size) as usize;
    let w = v.received(peer as int, piece as int, begin as int, data);
    let kept = w.in_flight;
    lemma_split(v.in_flight, of_block(piece, block));
    lemma_count(kept, of_block(piece, block));
    if count(kept, of_block(piece, block)) > 0 {
        let k = choose|k: int|
            0 <= k < kept.len() && of_block(piece, block).matches(#[trigger] kept[k]);
        assert(kept.contains(kept[k]));
    }
    lemma_cancels_hold(v.in_flight, piece, block, peer, begin, data.len() as usize, e);
}

/// The requests to withdraw hold one for each request in the table for the
/// block that was made of another peer.
proof fn lemma_cancels_hold(
    table: Seq<InFlight>,
    piece: usize,
    block: usize,
    sender: usize,
    begin: usize,
    length: usize,
    e: InFlight,
)
    requires
        table.contains(e),
        e.piece == piece,
        e.block == block,
        e.peer != sender,
    ensures
        cancels_for(table, piece, block, sender, begin, length).contains(
            BlockRequest { peer: e.peer, piece, begin, length },
        ),
    decreases table.len(),
{
    let wanted = BlockRequest { peer: e.peer, piece, begin, length };
    let all = cancels_for(table, piece, block, sender, begin, length);
    let front = table.drop_last();
    let rest = cancels_for(front, piece, block, sender, begin, length);
    let i = choose|i: int| 0 <= i < table.len() && table[i] == e;
    if i == table.len() - 1 {
        assert(all == rest.push(wanted));
        assert(all[rest.len() as int] == wanted);
    } else {
        assert(front[i] == e);
        lemma_cancels_hold(front, piece, block, sender, begin, length, e);
        let k = choose|k: int| 0 <= k < rest.len() && rest[k] == wanted;
        assert(all[k] == wanted);
    }
}

/// A piece whose bytes did not hash to what they must is to be had anew
/// from nothing: it is still to be had, and every block of it is missing.
pub proof fn lemma_bad_piece_starts_over(v: SchedulerView, piece: int)
    requires
        v.wf(),
        v.pending(piece),
    ensures
        ({
            let w = v.settled(piece, false);
            &&& w.pending(piece)
            &&& w.progress[piece].blocks.len() == v.progress[piece].blocks.len()
            &&& forall|b: int| 0 <= b < w.progress[piece].blocks.len() ==> #[trigger] w.missing(piece, b)
            &&& w.pieces == v.pieces
            &&& w.in_flight == v.in_flight
        }),
{
}

/// A peer that is no longer trusted is asked for a block only where the
/// piece has no holder that is still trusted.
pub proof fn lemma_flagged_peer_is_last_resort(v: SchedulerView, p: int, b: int, x: int)
    requires
        v.candidate(p, b, x),
        v.flagged(x),
    ensures
        forall|k: int|
            0 <= k < v.pieces[p].peers.len() ==> v.flagged(#[trigger] v.pieces[p].peers[k] as int),
{
    assert(!v.has_trusted_holder(p));
}

/// What is asked next belongs to the piece that comes before every other
/// piece of which anything can be asked: to the rarest, ties broken.
pub proof fn lemma_next_is_rarest(v: SchedulerView, p: int, b: int, x: int, p2: int, b2: int, x2: int)
    requires
        v.is_next(p, b, x),
        v.candidate(p2, b2, x2),
        p2 != p,
    ensures
        comes_before(v.pieces[p], v.pieces[p2]),
        v.pieces[p].rarity() <= v.pieces[p2].rarity(),
{
}

/// What is asked next is settled by the state alone: there are no two
/// different requests that both come first.
pub proof fn lemma_next_is_unique(
    v: SchedulerView,
    p: int,
    b: int,
    x: int,
    p2: int,
    b2: int,
    x2: int,
)
    requires
        v.wf(),
        v.is_next(p, b, x),
        v.is_next(p2, b2, x2),
    ensures
        p == p2,
        b == b2,
        x == x2,
{
    if p != p2 {
        assert(v.pieces[p].piece_i == p && v.pieces[p2].piece_i == p2);
        lemma_order_total(v.pieces[p], v.pieces[p2]);
    }
}

} // verus!
