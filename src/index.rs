//! Reading the pack index's responses: the records of a search, and the
//! list of serving peers. Both are scanned for fixed field sequences; the
//! scanner reports where each text field lies, and the numbers it holds.
use std::collections::HashMap;
use vstd::prelude::*;
use crate::announce::{
    decimal_value, digit_run_end, digits_value, lemma_run_end_bounds, matches_at, run_end,
};

verus! {

pub const DQUOTE: u8 = 34;

pub const NL: u8 = 10;

pub open spec fn lit_at(s: Seq<u8>, i: int, l: Seq<u8>) -> bool {
    0 <= i && i + l.len() <= s.len() && s.subrange(i, i + l.len()) == l
}

/// The end of the shortest non-empty text from `a` that a double quote
/// closes, without a line feed in it: searching from `c`; -1 if none.
pub open spec fn quote_from(s: Seq<u8>, a: int, c: int) -> int
    decreases s.len() - c,
{
    if c < 0 || c >= s.len() {
        -1
    } else if c > a && s[c] == DQUOTE {
        c
    } else if s[c] == NL {
        -1
    } else {
        quote_from(s, a, c + 1)
    }
}

pub open spec fn quote_end(s: Seq<u8>, a: int) -> int {
    quote_from(s, a, a)
}

/// `"botId":`
pub open spec fn bot_id_key() -> Seq<u8> {
    seq![34u8, 98, 111, 116, 73, 100, 34, 58]
}

/// `,"number":`
pub open spec fn number_key() -> Seq<u8> {
    seq![44u8, 34, 110, 117, 109, 98, 101, 114, 34, 58]
}

/// `,"name":"`
pub open spec fn name_key() -> Seq<u8> {
    seq![44u8, 34, 110, 97, 109, 101, 34, 58, 34]
}

/// `","size":"`
pub open spec fn size_key() -> Seq<u8> {
    seq![34u8, 44, 34, 115, 105, 122, 101, 34, 58, 34]
}

/// `"id":`
pub open spec fn id_key() -> Seq<u8> {
    seq![34u8, 105, 100, 34, 58]
}

/// The end of the shortest non-empty name from `a` that the size key
/// follows, with a size after it; searching from `b`; -1 if none.
pub open spec fn name_from(s: Seq<u8>, a: int, b: int) -> int
    decreases s.len() - b,
{
    if b < 0 || b >= s.len() {
        -1
    } else if b > a && lit_at(s, b, size_key()) && quote_end(s, b + 10) >= 0 {
        b
    } else if s[b] == NL {
        -1
    } else {
        name_from(s, a, b + 1)
    }
}

/// Where a search record that starts at `i` ends, or -1: `"botId":<digits>,
/// "number":<digits>,"name":"<name>","size":"<size>"`.
pub open spec fn record_end(s: Seq<u8>, i: int) -> int {
    let d1 = i + 8;
    let e1 = run_end(s, d1);
    let d2 = e1 + 10;
    let e2 = run_end(s, d2);
    let a = e2 + 9;
    let b = name_from(s, a, a);
    if lit_at(s, i, bot_id_key()) && e1 > d1 && lit_at(s, e1, number_key()) && e2 > d2 && lit_at(
        s,
        e2,
        name_key(),
    ) && b >= 0 {
        quote_end(s, b + 10) + 1
    } else {
        -1
    }
}

/// Where a peer entry that starts at `i` ends, or -1: `"id":<digits>,
/// "name":"<name>"`.
pub open spec fn peer_end(s: Seq<u8>, i: int) -> int {
    let d = i + 5;
    let e = run_end(s, d);
    if lit_at(s, i, id_key()) && e > d && lit_at(s, e, name_key()) && quote_end(s, e + 9) >= 0 {
        quote_end(s, e + 9) + 1
    } else {
        -1
    }
}

proof fn lemma_run_end_ge(s: Seq<u8>, i: int)
    ensures
        run_end(s, i) >= i,
    decreases s.len() - i,
{
    if 0 <= i < s.len() && crate::announce::is_digit(s[i]) {
        lemma_run_end_ge(s, i + 1);
    }
}

proof fn lemma_quote_from(s: Seq<u8>, a: int, c: int)
    ensures
        quote_from(s, a, c) >= 0 ==> quote_from(s, a, c) >= c && quote_from(s, a, c) > a
            && quote_from(s, a, c) < s.len(),
    decreases s.len() - c,
{
    if !(c < 0 || c >= s.len()) && !(c > a && s[c] == DQUOTE) && s[c] != NL {
        lemma_quote_from(s, a, c + 1);
    }
}

proof fn lemma_name_from(s: Seq<u8>, a: int, b: int)
    ensures
        name_from(s, a, b) >= 0 ==> name_from(s, a, b) >= b && name_from(s, a, b) > a && lit_at(
            s,
            name_from(s, a, b),
            size_key(),
        ) && quote_end(s, name_from(s, a, b) + 10) >= 0,
    decreases s.len() - b,
{
    if !(b < 0 || b >= s.len()) && !(b > a && lit_at(s, b, size_key()) && quote_end(s, b + 10)
        >= 0) && s[b] != NL {
        lemma_name_from(s, a, b + 1);
    }
}

proof fn lemma_record_end(s: Seq<u8>, i: int)
    ensures
        record_end(s, i) >= 0 ==> i < record_end(s, i) <= s.len(),
{
    let d1 = i + 8;
    let e1 = run_end(s, d1);
    let d2 = e1 + 10;
    let e2 = run_end(s, d2);
    let a = e2 + 9;
    let b = name_from(s, a, a);
    lemma_run_end_ge(s, d1);
    lemma_run_end_ge(s, d2);
    lemma_name_from(s, a, a);
    lemma_quote_from(s, b + 10, b + 10);
}

proof fn lemma_peer_end(s: Seq<u8>, i: int)
    ensures
        peer_end(s, i) >= 0 ==> i < peer_end(s, i) <= s.len(),
{
    let e = run_end(s, i + 5);
    lemma_run_end_ge(s, i + 5);
    lemma_quote_from(s, e + 9, e + 9);
}

/// The first place at or after `i` where a search record starts, or -1.
pub open spec fn next_record(s: Seq<u8>, i: int) -> int
    decreases s.len() - i,
{
    if i < 0 || i >= s.len() {
        -1
    } else if record_end(s, i) >= 0 {
        i
    } else {
        next_record(s, i + 1)
    }
}

/// The first place at or after `i` where a peer entry starts, or -1.
pub open spec fn next_peer(s: Seq<u8>, i: int) -> int
    decreases s.len() - i,
{
    if i < 0 || i >= s.len() {
        -1
    } else if peer_end(s, i) >= 0 {
        i
    } else {
        next_peer(s, i + 1)
    }
}

proof fn lemma_next_record(s: Seq<u8>, i: int)
    ensures
        next_record(s, i) >= 0 ==> next_record(s, i) >= i && record_end(s, next_record(s, i))
            >= 0,
    decreases s.len() - i,
{
    if !(i < 0 || i >= s.len()) && record_end(s, i) < 0 {
        lemma_next_record(s, i + 1);
    }
}

proof fn lemma_next_peer(s: Seq<u8>, i: int)
    ensures
        next_peer(s, i) >= 0 ==> next_peer(s, i) >= i && peer_end(s, next_peer(s, i)) >= 0,
    decreases s.len() - i,
{
    if !(i < 0 || i >= s.len()) && peer_end(s, i) < 0 {
        lemma_next_peer(s, i + 1);
    }
}

/// Where the search records start, from `i` on: each the leftmost after
/// the end of the one before.
pub open spec fn record_starts(s: Seq<u8>, i: int) -> Seq<int>
    decreases s.len() - i,
    via record_starts_decreases
{
    let j = next_record(s, i);
    if j < 0 {
        seq![]
    } else {
        seq![j] + record_starts(s, record_end(s, j))
    }
}

#[via_fn]
proof fn record_starts_decreases(s: Seq<u8>, i: int) {
    lemma_next_record(s, i);
    let j = next_record(s, i);
    if j >= 0 {
        lemma_record_end(s, j);
    }
}

/// Where the peer entries start, from `i` on.
pub open spec fn peer_starts(s: Seq<u8>, i: int) -> Seq<int>
    decreases s.len() - i,
    via peer_starts_decreases
{
    let j = next_peer(s, i);
    if j < 0 {
        seq![]
    } else {
        seq![j] + peer_starts(s, peer_end(s, j))
    }
}

#[via_fn]
proof fn peer_starts_decreases(s: Seq<u8>, i: int) {
    lemma_next_peer(s, i);
    let j = next_peer(s, i);
    if j >= 0 {
        lemma_peer_end(s, j);
    }
}

/// A search record: its numbers, and where its name and size lie in the
/// response.
#[derive(PartialEq, Eq, Structural, Clone, Copy, Debug)]
pub struct RecordSpan {
    pub bot_id: u16,
    pub pack: u32,
    pub name_start: usize,
    pub name_end: usize,
    pub size_start: usize,
    pub size_end: usize,
}

/// A peer entry: its number, and where its name lies in the response.
#[derive(PartialEq, Eq, Structural, Clone, Copy, Debug)]
pub struct PeerSpan {
    pub id: u16,
    pub name_start: usize,
    pub name_end: usize,
}

/// The numbers of the search record at `j`.
pub open spec fn record_numbers(s: Seq<u8>, j: int) -> (nat, nat) {
    let e1 = run_end(s, j + 8);
    let e2 = run_end(s, e1 + 10);
    (digits_value(s.subrange(j + 8, e1)), digits_value(s.subrange(e1 + 10, e2)))
}

/// The numbers of the record at `j` fit a 16-bit peer and a 32-bit pack.
pub open spec fn record_fits(s: Seq<u8>, j: int) -> bool {
    record_numbers(s, j).0 <= u16::MAX && record_numbers(s, j).1 <= u32::MAX
}

/// `r` describes the search record at `j`.
pub open spec fn is_record_span(s: Seq<u8>, j: int, r: RecordSpan) -> bool {
    let e2 = run_end(s, run_end(s, j + 8) + 10);
    let a = e2 + 9;
    let b = name_from(s, a, a);
    &&& r.bot_id as nat == record_numbers(s, j).0
    &&& r.pack as nat == record_numbers(s, j).1
    &&& r.name_start == a
    &&& r.name_end == b
    &&& r.size_start == b + 10
    &&& r.size_end == quote_end(s, b + 10)
}

pub open spec fn peer_id(s: Seq<u8>, j: int) -> nat {
    digits_value(s.subrange(j + 5, run_end(s, j + 5)))
}

/// `p` describes the peer entry at `j`.
pub open spec fn is_peer_span(s: Seq<u8>, j: int, p: PeerSpan) -> bool {
    let e = run_end(s, j + 5);
    &&& p.id as nat == peer_id(s, j)
    &&& p.name_start == e + 9
    &&& p.name_end == quote_end(s, e + 9)
}

fn quote_end_at(s: &[u8], a: usize) -> (r: Option<usize>)
    ensures
        match r {
            Some(c) => quote_end(s@, a as int) == c as int,
            None => quote_end(s@, a as int) == -1,
        },
{
    let mut c: usize = a;
    while c < s.len()
        invariant
            a <= c,
            quote_end(s@, a as int) == quote_from(s@, a as int, c as int),
        decreases s@.len() - c,
    {
        if c > a && s[c] == DQUOTE {
            return Some(c);
        }
        if s[c] == NL {
            return None;
        }
        c = c + 1;
    }
    None
}

fn name_end_at(s: &[u8], a: usize) -> (r: Option<usize>)
    ensures
        match r {
            Some(b) => name_from(s@, a as int, a as int) == b as int,
            None => name_from(s@, a as int, a as int) == -1,
        },
{
    let key: [u8; 10] = [34, 44, 34, 115, 105, 122, 101, 34, 58, 34];
    proof {
        assert(key@ =~= size_key());
    }
    let mut b: usize = a;
    while b < s.len()
        invariant
            a <= b,
            key@ == size_key(),
            name_from(s@, a as int, a as int) == name_from(s@, a as int, b as int),
        decreases s@.len() - b,
    {
        if b > a && matches_at(s, b, &key) {
            if b <= s.len() - 10 {
                if quote_end_at(s, b + 10).is_some() {
                    return Some(b);
                }
            }
        }
        if s[b] == NL {
            return None;
        }
        b = b + 1;
    }
    None
}

fn record_at(s: &[u8], i: usize) -> (r: Option<usize>)
    ensures
        match r {
            Some(e) => record_end(s@, i as int) == e as int,
            None => record_end(s@, i as int) == -1,
        },
{
    let k1: [u8; 8] = [34, 98, 111, 116, 73, 100, 34, 58];
    let k2: [u8; 10] = [44, 34, 110, 117, 109, 98, 101, 114, 34, 58];
    let k3: [u8; 9] = [44, 34, 110, 97, 109, 101, 34, 58, 34];
    proof {
        assert(k1@ =~= bot_id_key());
        assert(k2@ =~= number_key());
        assert(k3@ =~= name_key());
    }
    let n = s.len();
    if !matches_at(s, i, &k1) {
        return None;
    }
    let e1 = digit_run_end(s, i + 8);
    if !(e1 > i + 8 && matches_at(s, e1, &k2)) {
        return None;
    }
    let e2 = digit_run_end(s, e1 + 10);
    if !(e2 > e1 + 10 && matches_at(s, e2, &k3)) {
        return None;
    }
    let b = match name_end_at(s, e2 + 9) {
        Some(b) => b,
        None => {
            return None;
        },
    };
    proof {
        lemma_name_from(s@, e2 + 9, e2 + 9);
    }
    match quote_end_at(s, b + 10) {
        Some(c) => {
            proof {
                lemma_quote_from(s@, b + 10, b + 10);
            }
            Some(c + 1)
        },
        None => None,
    }
}

fn peer_at(s: &[u8], i: usize) -> (r: Option<usize>)
    ensures
        match r {
            Some(e) => peer_end(s@, i as int) == e as int,
            None => peer_end(s@, i as int) == -1,
        },
{
    let k1: [u8; 5] = [34, 105, 100, 34, 58];
    let k2: [u8; 9] = [44, 34, 110, 97, 109, 101, 34, 58, 34];
    proof {
        assert(k1@ =~= id_key());
        assert(k2@ =~= name_key());
    }
    let n = s.len();
    if !matches_at(s, i, &k1) {
        return None;
    }
    let e = digit_run_end(s, i + 5);
    if !(e > i + 5 && matches_at(s, e, &k2)) {
        return None;
    }
    match quote_end_at(s, e + 9) {
        Some(c) => {
            proof {
                lemma_quote_from(s@, e + 9, e + 9);
            }
            Some(c + 1)
        },
        None => None,
    }
}

/// The records of a search response, in order, with their numbers read;
/// nothing when a number does not fit its field.
pub fn search_records(s: &[u8]) -> (r: Option<Vec<RecordSpan>>)
    ensures
        r is Some <==> forall|k: int|
            0 <= k < record_starts(s@, 0).len() ==> record_fits(s@, #[trigger] record_starts(
                s@,
                0,
            )[k]),
        r matches Some(v) ==> v@.len() == record_starts(s@, 0).len() && forall|k: int|
            0 <= k < v@.len() ==> is_record_span(s@, record_starts(s@, 0)[k], #[trigger] v@[k]),
{
    let ghost all = record_starts(s@, 0);
    let ghost done: Seq<int> = seq![];
    let mut out: Vec<RecordSpan> = Vec::new();
    let mut i: usize = 0;
    while i < s.len()
        invariant
            i <= s@.len(),
            all == record_starts(s@, 0),
            all == done + record_starts(s@, i as int),
            out@.len() == done.len(),
            forall|k: int| 0 <= k < done.len() ==> record_fits(s@, #[trigger] done[k]),
            forall|k: int| 0 <= k < done.len() ==> is_record_span(s@, done[k], #[trigger] out@[k]),
        decreases s@.len() - i,
    {
        let mut j: usize = i;
        while j < s.len() && record_at(s, j).is_none()
            invariant
                i <= j <= s@.len(),
                next_record(s@, i as int) == next_record(s@, j as int),
            decreases s@.len() - j,
        {
            j = j + 1;
        }
        if j >= s.len() {
            proof {
                assert(record_starts(s@, i as int) =~= Seq::<int>::empty());
                assert(all =~= done);
            }
            return Some(out);
        }
        let end = match record_at(s, j) {
            Some(e) => e,
            None => {
                return None;
            },
        };
        proof {
            lemma_record_end(s@, j as int);
        }
        let e1 = digit_run_end(s, j + 8);
        let e2 = digit_run_end(s, e1 + 10);
        proof {
            lemma_run_end_bounds(s@, j + 8);
            lemma_run_end_bounds(s@, e1 + 10);
        }
        let bot = decimal_value(s, j + 8, e1);
        let pack = decimal_value(s, e1 + 10, e2);
        let (bot, pack) = match (bot, pack) {
            (Some(b), Some(p)) => {
                if b > 0xffff || p > 0xffff_ffff {
                    proof {
                        assert(all[done.len() as int] == j as int);
                    }
                    return None;
                }
                (b as u16, p as u32)
            },
            _ => {
                proof {
                    assert(all[done.len() as int] == j as int);
                }
                return None;
            },
        };
        let b = match name_end_at(s, e2 + 9) {
            Some(b) => b,
            None => {
                return None;
            },
        };
        proof {
            lemma_name_from(s@, e2 + 9, e2 + 9);
        }
        let c = match quote_end_at(s, b + 10) {
            Some(c) => c,
            None => {
                return None;
            },
        };
        out.push(
            RecordSpan {
                bot_id: bot,
                pack,
                name_start: e2 + 9,
                name_end: b,
                size_start: b + 10,
                size_end: c,
            },
        );
        proof {
            done = done.push(j as int);
            assert(all =~= done + record_starts(s@, end as int));
        }
        i = end;
    }
    proof {
        assert(record_starts(s@, i as int) =~= Seq::<int>::empty());
        assert(all =~= done);
    }
    Some(out)
}

/// The entries of a peer list, in order, with their numbers read; nothing
/// when a number does not fit 16 bits.
pub fn peer_entries(s: &[u8]) -> (r: Option<Vec<PeerSpan>>)
    ensures
        r is Some <==> forall|k: int|
            0 <= k < peer_starts(s@, 0).len() ==> peer_id(s@, #[trigger] peer_starts(s@, 0)[k])
                <= u16::MAX,
        r matches Some(v) ==> v@.len() == peer_starts(s@, 0).len() && forall|k: int|
            0 <= k < v@.len() ==> is_peer_span(s@, peer_starts(s@, 0)[k], #[trigger] v@[k]),
{
    let ghost all = peer_starts(s@, 0);
    let ghost done: Seq<int> = seq![];
    let mut out: Vec<PeerSpan> = Vec::new();
    let mut i: usize = 0;
    while i < s.len()
        invariant
            i <= s@.len(),
            all == peer_starts(s@, 0),
            all == done + peer_starts(s@, i as int),
            out@.len() == done.len(),
            forall|k: int| 0 <= k < done.len() ==> peer_id(s@, #[trigger] done[k]) <= u16::MAX,
            forall|k: int| 0 <= k < done.len() ==> is_peer_span(s@, done[k], #[trigger] out@[k]),
        decreases s@.len() - i,
    {
        let mut j: usize = i;
        while j < s.len() && peer_at(s, j).is_none()
            invariant
                i <= j <= s@.len(),
                next_peer(s@, i as int) == next_peer(s@, j as int),
            decreases s@.len() - j,
        {
            j = j + 1;
        }
        if j >= s.len() {
            proof {
                assert(peer_starts(s@, i as int) =~= Seq::<int>::empty());
                assert(all =~= done);
            }
            return Some(out);
        }
        let end = match peer_at(s, j) {
            Some(e) => e,
            None => {
                return None;
            },
        };
        proof {
            lemma_peer_end(s@, j as int);
        }
        let e = digit_run_end(s, j + 5);
        proof {
            lemma_run_end_bounds(s@, j + 5);
        }
        let id = match decimal_value(s, j + 5, e) {
            Some(v) => {
                if v > 0xffff {
                    proof {
                        assert(all[done.len() as int] == j as int);
                    }
                    return None;
                }
                v as u16
            },
            None => {
                proof {
                    assert(all[done.len() as int] == j as int);
                }
                return None;
            },
        };
        let c = match quote_end_at(s, e + 9) {
            Some(c) => c,
            None => {
                return None;
            },
        };
        out.push(PeerSpan { id, name_start: e + 9, name_end: c });
        proof {
            done = done.push(j as int);
            assert(all =~= done + peer_starts(s@, end as int));
        }
        i = end;
    }
    proof {
        assert(peer_starts(s@, i as int) =~= Seq::<int>::empty());
        assert(all =~= done);
    }
    Some(out)
}

/// The peer table: each entry's number mapped to the entry, a later entry
/// replacing an earlier one of the same number.
pub open spec fn table_of(peers: Seq<PeerSpan>) -> Map<u16, PeerSpan>
    decreases peers.len(),
{
    if peers.len() == 0 {
        Map::empty()
    } else {
        table_of(peers.drop_last()).insert(peers.last().id, peers.last())
    }
}

/// The peers by number.
pub fn peer_table(peers: &Vec<PeerSpan>) -> (r: HashMap<u16, PeerSpan>)
    ensures
        r@ == table_of(peers@),
{
    broadcast use vstd::std_specs::hash::group_hash_axioms;

    let mut table: HashMap<u16, PeerSpan> = HashMap::new();
    let mut k: usize = 0;
    while k < peers.len()
        invariant
            k <= peers@.len(),
            table@ == table_of(peers@.take(k as int)),
        decreases peers@.len() - k,
    {
        proof {
            assert(peers@.take(k + 1).drop_last() =~= peers@.take(k as int));
        }
        table.insert(peers[k].id, peers[k]);
        k = k + 1;
    }
    proof {
        assert(peers@.take(k as int) =~= peers@);
    }
    table
}

} // verus!
