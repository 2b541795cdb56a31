//! The quotation index and its query policy.

use crate::lines::{byte_lines, decode, lemma_readable_push, quotations_of, readable, split_lines};
use crate::matching::{contains, lemma_matching_push, matching, occurs_in};
use crate::sampling::{choose_positions, in_range, is_sample};
use vstd::prelude::*;

verus! {

/// The largest number of items in one result set.
pub const MAX_RESULTS: usize = 50;

/// The number of quotations drawn for the empty query.
pub const SAMPLE_SIZE: usize = 5;

/// How long the platform may cache an answer.
pub const CACHE_TIME: u32 = 5;

/// One quotation as it is handed back: the quotation's text serves as its
/// identifier and as what is shown. Two equal lines of the store therefore
/// give two items with one identifier.
#[derive(Debug, PartialEq, Eq)]
pub struct ResultItem {
    pub id: String,
    pub display_text: String,
}

impl View for ResultItem {
    type V = (Seq<char>, Seq<char>);

    open spec fn view(&self) -> (Seq<char>, Seq<char>) {
        (self.id@, self.display_text@)
    }
}

/// The ordered answer to one query.
#[derive(Debug, PartialEq, Eq)]
pub struct ResultSet {
    pub items: Vec<ResultItem>,
}

impl View for ResultSet {
    type V = Seq<(Seq<char>, Seq<char>)>;

    open spec fn view(&self) -> Seq<(Seq<char>, Seq<char>)> {
        self.items@.map_values(|item: ResultItem| item@)
    }
}

/// An inbound query: the identifier that the answer must carry, and the
/// query text, empty where the user typed nothing.
#[derive(Debug, PartialEq, Eq)]
pub struct InlineQuery {
    pub id: String,
    pub query: String,
}

/// What is sent back for one inbound query.
#[derive(Debug, PartialEq, Eq)]
pub struct Answer {
    pub inline_query_id: String,
    pub results: ResultSet,
    pub cache_time: u32,
}

/// The character sequences of a list of strings.
pub open spec fn texts(strings: Seq<String>) -> Seq<Seq<char>> {
    strings.map_values(|s: String| s@)
}

/// The item that stands for a quotation.
pub open spec fn item_of(text: Seq<char>) -> (Seq<char>, Seq<char>) {
    (text, text)
}

/// The items that stand for a list of quotations.
pub open spec fn items_of(chosen: Seq<Seq<char>>) -> Seq<(Seq<char>, Seq<char>)> {
    chosen.map_values(|text: Seq<char>| item_of(text))
}

/// The first `MAX_RESULTS` of `chosen`, or all of it where it is shorter.
pub open spec fn capped(chosen: Seq<Seq<char>>) -> Seq<Seq<char>> {
    if chosen.len() <= MAX_RESULTS {
        chosen
    } else {
        chosen.take(MAX_RESULTS as int)
    }
}

/// The quotations of `store` at `positions`, in the order of `positions`.
pub open spec fn picked(store: Seq<Seq<char>>, positions: Seq<usize>) -> Seq<Seq<char>> {
    Seq::new(positions.len(), |i: int| store[positions[i] as int])
}

/// Strictly ascending positions.
pub open spec fn ascending(positions: Seq<usize>) -> bool {
    forall|i: int, j: int| 0 <= i < j < positions.len() ==> positions[i] < positions[j]
}

/// `result` is an answer of the store to `query`.
///
/// A non-empty query is answered with the quotations that contain it, in store
/// order, cut after `MAX_RESULTS`. The empty query is answered with the whole
/// store where it holds at most `SAMPLE_SIZE` quotations, and otherwise with
/// the quotations at `SAMPLE_SIZE` different positions, in any order.
pub open spec fn answers(
    store: Seq<Seq<char>>,
    query: Seq<char>,
    result: Seq<(Seq<char>, Seq<char>)>,
) -> bool {
    if query.len() > 0 {
        result == items_of(capped(matching(store, query)))
    } else if store.len() <= SAMPLE_SIZE {
        result == items_of(store)
    } else {
        exists|picks: Seq<usize>|
            is_sample(picks, store.len(), SAMPLE_SIZE as nat) && result == items_of(
                #[trigger] picked(store, picks),
            )
    }
}

/// The positions `0, 1, .., len - 1`.
fn all_positions(len: usize) -> (positions: Vec<usize>)
    ensures
        positions@ == Seq::new(len as nat, |i: int| i as usize),
{
    let mut positions: Vec<usize> = Vec::new();
    let mut i: usize = 0;
    while i < len
        invariant
            i <= len,
            positions@ == Seq::new(i as nat, |k: int| k as usize),
        decreases len - i,
    {
        positions.push(i);
        i += 1;
        assert(positions@ =~= Seq::new(i as nat, |k: int| k as usize));
    }
    positions
}

/// An in-memory, ordered list of quotations, fixed once it is built.
pub struct InlineQueryHandler {
    quotations: Vec<String>,
}

impl View for InlineQueryHandler {
    type V = Seq<Seq<char>>;

    closed spec fn view(&self) -> Seq<Seq<char>> {
        texts(self.quotations@)
    }
}

impl InlineQueryHandler {
    /// Builds the index from the content of the quotation source: one
    /// quotation for each line that is valid UTF-8, in the order of the
    /// lines. The other lines are skipped.
    pub fn new(source: &[u8]) -> (handler: InlineQueryHandler)
        ensures
            handler@ == quotations_of(source@),
    {
        let lines = split_lines(source);
        let mut quotations: Vec<String> = Vec::new();
        let mut i: usize = 0;
        assert(byte_lines(lines@).take(0) =~= Seq::<Seq<u8>>::empty());
        assert(texts(quotations@) =~= readable(byte_lines(lines@).take(0))) by {
            reveal(Seq::filter);
        }
        while i < lines.len()
            invariant
                i <= lines.len(),
                texts(quotations@) == readable(byte_lines(lines@).take(i as int)),
            decreases lines.len() - i,
        {
            let ghost before = quotations@;
            proof {
                lemma_readable_push(byte_lines(lines@).take(i as int), lines@[i as int]@);
                assert(byte_lines(lines@).take(i + 1) =~= byte_lines(lines@).take(i as int).push(
                    lines@[i as int]@,
                ));
            }
            match decode(lines[i].as_slice()) {
                Some(text) => {
                    let quotation = text.to_owned();
                    quotations.push(quotation);
                    assert(texts(quotations@) =~= texts(before).push(quotation@));
                },
                None => {},
            }
            i += 1;
        }
        assert(byte_lines(lines@).take(lines@.len() as int) =~= byte_lines(lines@));
        InlineQueryHandler { quotations }
    }

    /// The positions of the quotations that contain `q`, in ascending order.
    pub fn matching_positions(&self, q: &str) -> (positions: Vec<usize>)
        ensures
            in_range(positions@, self@.len()),
            ascending(positions@),
            picked(self@, positions@) == matching(self@, q@),
            forall|k: int|
                0 <= k < positions@.len() ==> occurs_in(self@[#[trigger] positions@[k] as int], q@),
            forall|p: int|
                0 <= p < self@.len() && occurs_in(#[trigger] self@[p], q@)
                    ==> positions@.contains(p as usize),
    {
        let mut positions: Vec<usize> = Vec::new();
        let mut i: usize = 0;
        assert(self@.take(0) =~= Seq::<Seq<char>>::empty());
        assert(picked(self@, positions@) =~= matching(self@.take(0), q@)) by {
            reveal(Seq::filter);
        }
        while i < self.quotations.len()
            invariant
                i <= self.quotations.len(),
                in_range(positions@, i as nat),
                ascending(positions@),
                picked(self@, positions@) == matching(self@.take(i as int), q@),
                forall|k: int|
                    0 <= k < positions@.len() ==> occurs_in(
                        self@[#[trigger] positions@[k] as int],
                        q@,
                    ),
                forall|p: int|
                    0 <= p < i && occurs_in(#[trigger] self@[p], q@) ==> positions@.contains(
                        p as usize,
                    ),
            decreases self.quotations.len() - i,
        {
            let ghost before = positions@;
            proof {
                lemma_matching_push(self@.take(i as int), self@[i as int], q@);
                assert(self@.take(i + 1) =~= self@.take(i as int).push(self@[i as int]));
            }
            if contains(self.quotations[i].as_str(), q) {
                positions.push(i);
                proof {
                    assert(picked(self@, positions@) =~= picked(self@, before).push(
                        self@[i as int],
                    ));
                    assert(positions@[before.len() as int] == i);
                    assert forall|p: int|
                        0 <= p < i + 1 && occurs_in(
                            #[trigger] self@[p],
                            q@,
                        ) implies positions@.contains(p as usize) by {
                        if p < i {
                            let k = choose|k: int| 0 <= k < before.len() && before[k] == p as usize;
                            assert(positions@[k] == p as usize);
                        }
                    }
                }
            }
            i += 1;
        }
        assert(self@.take(self@.len() as int) =~= self@);
        positions
    }

    /// The items for the quotations at `positions`, in that order, cut after
    /// `MAX_RESULTS`.
    pub fn items_at(&self, positions: &Vec<usize>) -> (result: ResultSet)
        requires
            in_range(positions@, self@.len()),
        ensures
            result@ == items_of(capped(picked(self@, positions@))),
    {
        let mut items: Vec<ResultItem> = Vec::new();
        let mut i: usize = 0;
        while i < positions.len() && i < MAX_RESULTS
            invariant
                i <= positions.len(),
                i <= MAX_RESULTS,
                in_range(positions@, self@.len()),
                items@.len() == i,
                forall|k: int|
                    0 <= k < i ==> (#[trigger] items@[k])@ == item_of(
                        self@[positions@[k] as int],
                    ),
            decreases positions.len() - i,
        {
            let text = &self.quotations[positions[i]];
            items.push(ResultItem { id: text.clone(), display_text: text.clone() });
            i += 1;
        }
        let result = ResultSet { items };
        assert(result@ =~= items_of(capped(picked(self@, positions@))));
        result
    }

    /// Answers one query.
    ///
    /// The empty query draws positions at random where the store holds more
    /// than `SAMPLE_SIZE` quotations, so two calls may differ there; every
    /// other answer is fixed by the store and the query.
    pub fn query(&self, q: &str) -> (result: ResultSet)
        ensures
            answers(self@, q@, result@),
            result@.len() <= MAX_RESULTS,
    {
        let positions = if q.is_empty() {
            if self.quotations.len() <= SAMPLE_SIZE {
                let all = all_positions(self.quotations.len());
                assert(picked(self@, all@) =~= self@);
                all
            } else {
                choose_positions(self.quotations.len(), SAMPLE_SIZE)
            }
        } else {
            self.matching_positions(q)
        };
        let result = self.items_at(&positions);
        assert(q@.len() == 0 && self@.len() > SAMPLE_SIZE ==> capped(picked(self@, positions@))
            == picked(self@, positions@));
        result
    }

    /// Decides what is sent back for one inbound query: the answer of
    /// `query` to its text, under the query's identifier, cacheable for
    /// `CACHE_TIME`.
    pub fn handle(&self, update: &InlineQuery) -> (answer: Answer)
        ensures
            answer.inline_query_id@ == update.id@,
            answer.cache_time == CACHE_TIME,
            answers(self@, update.query@, answer.results@),
            answer.results@.len() <= MAX_RESULTS,
    {
        let results = self.query(update.query.as_str());
        Answer { inline_query_id: update.id.clone(), results, cache_time: CACHE_TIME }
    }
}

} // verus!
