//! What holds of every answer, proved from the contract of `query`.

use crate::handler::{answers, capped, item_of, items_of, picked, MAX_RESULTS, SAMPLE_SIZE};
use crate::lines::{
    lemma_line_end, lemma_readable_add, lemma_readable_push, lines_of, quotations_of, readable,
    CARRIAGE_RETURN, LINE_FEED,
};
use crate::matching::{lemma_matching_push, lemma_occurs_in_itself, matching, occurs_in};
use crate::sampling::is_sample;
use vstd::prelude::*;
use vstd::utf8::{encode_utf8, encode_utf8_decode_utf8, encode_utf8_valid_utf8};

verus! {

/// `result` holds, item for item, the quotations of `store` at `positions`.
pub open spec fn drawn_at(
    store: Seq<Seq<char>>,
    positions: Seq<int>,
    result: Seq<(Seq<char>, Seq<char>)>,
) -> bool {
    &&& positions.len() == result.len()
    &&& forall|i: int|
        0 <= i < positions.len() ==> 0 <= #[trigger] positions[i] < store.len() && result[i]
            == item_of(store[positions[i]])
}

/// `result` holds the quotations of `store` at `positions`, which ascend
/// strictly: the items stand in store order.
pub open spec fn drawn_in_order(
    store: Seq<Seq<char>>,
    positions: Seq<int>,
    result: Seq<(Seq<char>, Seq<char>)>,
) -> bool {
    &&& drawn_at(store, positions, result)
    &&& forall|i: int, j: int| 0 <= i < j < positions.len() ==> positions[i] < positions[j]
}

/// The matches of a query are the quotations at strictly ascending positions
/// of the store. Returns those positions.
proof fn lemma_matching_in_order(store: Seq<Seq<char>>, query: Seq<char>) -> (positions: Seq<int>)
    ensures
        drawn_in_order(store, positions, items_of(matching(store, query))),
    decreases store.len(),
{
    if store.len() == 0 {
        reveal(Seq::filter);
        Seq::empty()
    } else {
        let prefix = store.drop_last();
        let before = lemma_matching_in_order(prefix, query);
        lemma_matching_push(prefix, store.last(), query);
        assert(prefix.push(store.last()) =~= store);
        if occurs_in(store.last(), query) {
            let positions = before.push(store.len() - 1);
            assert(items_of(matching(store, query)) =~= items_of(matching(prefix, query)).push(
                item_of(store.last()),
            ));
            assert forall|i: int| 0 <= i < positions.len() implies 0 <= #[trigger] positions[i]
                < store.len() && items_of(matching(store, query))[i] == item_of(
                store[positions[i]],
            ) by {
                if i < before.len() {
                    assert(positions[i] == before[i]);
                }
            }
            assert forall|i: int, j: int| 0 <= i < j < positions.len() implies positions[i]
                < positions[j] by {
                assert(positions[i] == before[i]);
            }
            positions
        } else {
            before
        }
    }
}

/// Every item of an answer to a non-empty query contains the query as a
/// contiguous part of its text, and carries that text as its identifier.
pub proof fn law_matches_contain_query(
    store: Seq<Seq<char>>,
    query: Seq<char>,
    result: Seq<(Seq<char>, Seq<char>)>,
)
    requires
        query.len() > 0,
        answers(store, query, result),
    ensures
        forall|i: int|
            0 <= i < result.len() ==> occurs_in((#[trigger] result[i]).1, query) && result[i].0
                == result[i].1,
{
    broadcast use vstd::seq_lib::group_filter_ensures;

    let found = matching(store, query);
    assert forall|i: int| 0 <= i < result.len() implies occurs_in(
        (#[trigger] result[i]).1,
        query,
    ) && result[i].0 == result[i].1 by {
        assert(result[i] == item_of(capped(found)[i]));
        assert(capped(found)[i] == found[i]);
        assert(occurs_in(found[i], query));
    }
}

/// The items of an answer to a non-empty query stand in store order: they are
/// the quotations at some strictly ascending positions of the store.
pub proof fn law_matches_keep_store_order(
    store: Seq<Seq<char>>,
    query: Seq<char>,
    result: Seq<(Seq<char>, Seq<char>)>,
)
    requires
        query.len() > 0,
        answers(store, query, result),
    ensures
        exists|positions: Seq<int>| drawn_in_order(store, positions, result),
{
    let all = lemma_matching_in_order(store, query);
    let found = matching(store, query);
    if found.len() <= MAX_RESULTS {
        assert(drawn_in_order(store, all, result));
    } else {
        let first = all.take(MAX_RESULTS as int);
        assert forall|i: int| 0 <= i < first.len() implies 0 <= #[trigger] first[i] < store.len()
            && result[i] == item_of(store[first[i]]) by {
            assert(first[i] == all[i]);
            assert(result[i] == items_of(found)[i]);
        }
        assert forall|i: int, j: int| 0 <= i < j < first.len() implies first[i] < first[j] by {
            assert(first[i] == all[i] && first[j] == all[j]);
        }
        assert(drawn_in_order(store, first, result));
    }
}

/// No answer holds more than `MAX_RESULTS` items.
pub proof fn law_answer_is_bounded(
    store: Seq<Seq<char>>,
    query: Seq<char>,
    result: Seq<(Seq<char>, Seq<char>)>,
)
    requires
        answers(store, query, result),
    ensures
        result.len() <= MAX_RESULTS,
{
}

/// The empty query on a store of at most `SAMPLE_SIZE` quotations is answered
/// with every quotation, in store order.
pub proof fn law_small_store_is_returned_whole(
    store: Seq<Seq<char>>,
    query: Seq<char>,
    result: Seq<(Seq<char>, Seq<char>)>,
)
    requires
        query.len() == 0,
        store.len() <= SAMPLE_SIZE,
        answers(store, query, result),
    ensures
        result.len() == store.len(),
        forall|i: int| 0 <= i < store.len() ==> #[trigger] result[i] == item_of(store[i]),
{
}

/// The empty query on a store of more than `SAMPLE_SIZE` quotations is
/// answered with exactly `SAMPLE_SIZE` items, each for a quotation of the
/// store and no two for the same position.
pub proof fn law_sample_is_drawn_from_store(
    store: Seq<Seq<char>>,
    query: Seq<char>,
    result: Seq<(Seq<char>, Seq<char>)>,
)
    requires
        query.len() == 0,
        store.len() > SAMPLE_SIZE,
        answers(store, query, result),
    ensures
        result.len() == SAMPLE_SIZE,
        exists|positions: Seq<int>|
            drawn_at(store, positions, result) && positions.no_duplicates(),
{
    let picks = choose|picks: Seq<usize>|
        is_sample(picks, store.len(), SAMPLE_SIZE as nat) && result == items_of(
            #[trigger] picked(store, picks),
        );
    let positions = Seq::new(picks.len(), |i: int| picks[i] as int);
    assert forall|i: int| 0 <= i < positions.len() implies 0 <= #[trigger] positions[i]
        < store.len() && result[i] == item_of(store[positions[i]]) by {
        assert(picks[i] < store.len());
        assert(result[i] == item_of(picked(store, picks)[i]));
    }
    assert(drawn_at(store, positions, result) && positions.no_duplicates());
}

/// Where no quotation stands twice in the store, no item stands twice in the
/// answer to the empty query.
pub proof fn law_sample_of_distinct_store_is_distinct(
    store: Seq<Seq<char>>,
    query: Seq<char>,
    result: Seq<(Seq<char>, Seq<char>)>,
)
    requires
        query.len() == 0,
        store.no_duplicates(),
        answers(store, query, result),
    ensures
        result.no_duplicates(),
{
    if store.len() > SAMPLE_SIZE {
        let picks = choose|picks: Seq<usize>|
            is_sample(picks, store.len(), SAMPLE_SIZE as nat) && result == items_of(
                #[trigger] picked(store, picks),
            );
        assert forall|i: int, j: int| 0 <= i < result.len() && 0 <= j < result.len() && i
            != j implies result[i] != result[j] by {
            assert(picks[i] < store.len() && picks[j] < store.len());
            assert(result[i] == item_of(picked(store, picks)[i]));
            assert(result[j] == item_of(picked(store, picks)[j]));
            assert(picks[i] != picks[j]);
        }
    } else {
        assert forall|i: int, j: int| 0 <= i < result.len() && 0 <= j < result.len() && i
            != j implies result[i] != result[j] by {
            assert(result[i] == item_of(store[i]) && result[j] == item_of(store[j]));
        }
    }
}

/// A non-empty query has one answer: two answers of the same store to the
/// same query are equal.
pub proof fn law_answer_is_determined(
    store: Seq<Seq<char>>,
    query: Seq<char>,
    first: Seq<(Seq<char>, Seq<char>)>,
    second: Seq<(Seq<char>, Seq<char>)>,
)
    requires
        query.len() > 0,
        answers(store, query, first),
        answers(store, query, second),
    ensures
        first == second,
{
}

/// A quotation asked for by its own text is among the items of the answer,
/// as identifier and as text, where the cap or the random draw cannot drop
/// it: the quotation is not empty and fewer than `MAX_RESULTS` matches stand
/// before position `at`, or it is empty and the store holds at most
/// `SAMPLE_SIZE` quotations.
pub proof fn law_round_trip(
    store: Seq<Seq<char>>,
    at: int,
    result: Seq<(Seq<char>, Seq<char>)>,
)
    requires
        0 <= at < store.len(),
        answers(store, store[at], result),
        store[at].len() > 0 ==> matching(store.take(at), store[at]).len() < MAX_RESULTS,
        store[at].len() == 0 ==> store.len() <= SAMPLE_SIZE,
    ensures
        result.contains((store[at], store[at])),
{
    let text = store[at];
    if text.len() > 0 {
        broadcast use Seq::filter_distributes_over_add;

        let head = store.take(at + 1);
        let tail = store.skip(at + 1);
        let ahead = matching(store.take(at), text).len() as int;
        lemma_occurs_in_itself(text);
        lemma_matching_push(store.take(at), text, text);
        assert(store.take(at).push(text) =~= head);
        assert(head + tail =~= store);
        assert(matching(store, text) == matching(head, text) + matching(tail, text));
        assert(matching(store, text)[ahead] == text);
        assert(capped(matching(store, text))[ahead] == text);
        assert(result[ahead] == item_of(text));
    } else {
        assert(result[at] == item_of(text));
    }
}

/// A text written as UTF-8 and closed by a line feed is read back as one
/// quotation, before those of what follows it, provided that its bytes hold
/// no line feed and do not end in a carriage return.
pub proof fn law_written_line_is_read_back(text: Seq<char>, rest: Seq<u8>)
    requires
        !encode_utf8(text).contains(LINE_FEED),
        encode_utf8(text).len() > 0 ==> encode_utf8(text).last() != CARRIAGE_RETURN,
    ensures
        quotations_of(encode_utf8(text) + seq![LINE_FEED] + rest) == seq![text] + quotations_of(
            rest,
        ),
{
    let line = encode_utf8(text);
    let source = line + seq![LINE_FEED] + rest;
    let none = Seq::<Seq<u8>>::empty();
    assert forall|k: int| 0 <= k < line.len() implies source[k] != LINE_FEED by {
        assert(line.contains(line[k]));
    }
    lemma_line_end(source, line.len() as int);
    assert(source.take(line.len() as int) =~= line);
    assert(source.skip(line.len() as int + 1) =~= rest);
    assert(lines_of(source) == seq![line] + lines_of(rest));
    encode_utf8_valid_utf8(text);
    encode_utf8_decode_utf8(text);
    lemma_readable_push(none, line);
    assert(readable(none) =~= Seq::<Seq<char>>::empty()) by {
        reveal(Seq::filter);
    }
    assert(none.push(line) =~= seq![line]);
    assert(readable(seq![line]) =~= seq![text]);
    lemma_readable_add(seq![line], lines_of(rest));
}

} // verus!
