//! The resolved download request, and the session it opens.
use vstd::prelude::*;
use vstd::string::{StrSliceExecFns, StringExecFns};
use vstd::utf8::encode_utf8;
use crate::session::{Phase, Session, SessionView};

verus! {

/// What the client was asked to do: search an index by a free-text term,
/// or fetch the given packs from a named serving peer.
#[derive(Debug, PartialEq, Eq)]
pub enum Args {
    Query { search: String },
    Direct { bot: String, packs: Vec<String> },
}

/// Why the command line could not be read as a request.
#[derive(PartialEq, Eq, Structural, Clone, Copy, Debug)]
pub enum ArgsError {
    /// Too few arguments, or a direct request without exactly a peer and a
    /// list of packs.
    Insufficient,
    /// The peer is not among the known ones.
    UnknownPeer,
    /// The first argument names no command.
    InvalidCommand,
}

pub open spec fn is_ascii_digit(c: char) -> bool {
    '0' <= c <= '9'
}

/// `w` is the lower-case word `t`, up to the case of ASCII letters.
pub open spec fn word_is(w: Seq<char>, t: Seq<char>) -> bool {
    &&& w.len() == t.len()
    &&& forall|i: int|
        0 <= i < w.len() ==> #[trigger] w[i] == t[i] || ('A' <= w[i] <= 'Z' && w[i] as u32 + 32
            == t[i] as u32)
}

pub open spec fn is_query_word(w: Seq<char>) -> bool {
    word_is(w, seq!['q', 'u', 'e', 'r', 'y']) || word_is(w, seq!['s', 'e', 'a', 'r', 'c', 'h'])
        || word_is(w, seq!['f', 'i', 'n', 'd'])
}

pub open spec fn is_direct_word(w: Seq<char>) -> bool {
    word_is(w, seq!['d', 'i', 'r', 'e', 'c', 't'])
}

/// `s` with every space made a plus sign.
pub open spec fn plus_for_space(s: Seq<char>) -> Seq<char> {
    s.map_values(|c: char| if c == ' ' { '+' } else { c })
}

/// The search terms joined by plus signs, spaces inside them made plus
/// signs too.
pub open spec fn query_text(parts: Seq<Seq<char>>) -> Seq<char>
    decreases parts.len(),
{
    if parts.len() == 0 {
        seq![]
    } else if parts.len() == 1 {
        plus_for_space(parts[0])
    } else {
        query_text(parts.drop_last()) + seq!['+'] + plus_for_space(parts.last())
    }
}

/// Runs of ASCII digits seen so far, and the run still open.
pub open spec fn runs_scan(s: Seq<char>) -> (Seq<Seq<char>>, Seq<char>)
    decreases s.len(),
{
    if s.len() == 0 {
        (seq![], seq![])
    } else {
        let (done, open) = runs_scan(s.drop_last());
        let c = s.last();
        if is_ascii_digit(c) {
            (done, open.push(c))
        } else if open.len() > 0 {
            (done.push(open), seq![])
        } else {
            (done, seq![])
        }
    }
}

/// Every maximal run of ASCII digits in `s`, in order.
pub open spec fn digit_runs(s: Seq<char>) -> Seq<Seq<char>> {
    let (done, open) = runs_scan(s);
    if open.len() > 0 {
        done.push(open)
    } else {
        done
    }
}

pub open spec fn strings(v: Seq<String>) -> Seq<Seq<char>> {
    v.map_values(|x: String| x@)
}

/// The pack identifiers written in `text`: its runs of digits.
pub fn pack_ids(text: &str) -> (r: Vec<String>)
    ensures
        strings(r@) == digit_runs(text@),
{
    let n = text.unicode_len();
    let mut out: Vec<String> = Vec::new();
    let mut start: usize = 0;
    let mut i: usize = 0;
    while i < n
        invariant
            n == text@.len(),
            start <= i <= n,
            strings(out@) == runs_scan(text@.take(i as int)).0,
            text@.subrange(start as int, i as int) == runs_scan(text@.take(i as int)).1,
        decreases n - i,
    {
        let c = text.get_char(i);
        proof {
            assert(text@.take(i + 1).drop_last() =~= text@.take(i as int));
        }
        if '0' <= c && c <= '9' {
            proof {
                assert(text@.subrange(start as int, i + 1) =~= text@.subrange(
                    start as int,
                    i as int,
                ).push(c));
            }
        } else {
            if start < i {
                let run = text.substring_char(start, i).to_string();
                let ghost before = out@;
                out.push(run);
                proof {
                    assert(strings(out@) =~= strings(before).push(run@));
                }
            }
            start = i + 1;
            proof {
                assert(text@.subrange(start as int, i + 1) =~= Seq::<char>::empty());
            }
        }
        i = i + 1;
    }
    proof {
        assert(text@.take(n as int) =~= text@);
    }
    if start < n {
        let run = text.substring_char(start, n).to_string();
        let ghost before = out@;
        out.push(run);
        proof {
            assert(strings(out@) =~= strings(before).push(run@));
        }
    }
    out
}

/// `w` is the lower-case word `t`, up to the case of ASCII letters.
fn same_word(w: &str, t: &str) -> (r: bool)
    ensures
        r == word_is(w@, t@),
{
    let n = w.unicode_len();
    if n != t.unicode_len() {
        return false;
    }
    let mut i: usize = 0;
    while i < n
        invariant
            n == w@.len() == t@.len(),
            i <= n,
            forall|j: int|
                0 <= j < i ==> #[trigger] w@[j] == t@[j] || ('A' <= w@[j] <= 'Z' && w@[j] as u32
                    + 32 == t@[j] as u32),
        decreases n - i,
    {
        let a = w.get_char(i);
        let b = t.get_char(i);
        if !(a == b || ('A' <= a && a <= 'Z' && a as u32 + 32 == b as u32)) {
            return false;
        }
        i = i + 1;
    }
    true
}

/// The search text of a query: the terms joined by plus signs, spaces
/// inside them made plus signs too.
pub fn query_string(parts: &[String]) -> (r: String)
    ensures
        r@ == query_text(strings(parts@)),
{
    proof {
        reveal_strlit("");
    }
    let mut out = String::from_str("");
    proof {
        assert(out@ =~= query_text(strings(parts@.take(0))));
    }
    let mut k: usize = 0;
    while k < parts.len()
        invariant
            k <= parts@.len(),
            out@ == query_text(strings(parts@.take(k as int))),
        decreases parts@.len() - k,
    {
        proof {
            assert(strings(parts@.take(k + 1)).drop_last() =~= strings(parts@.take(k as int)));
            assert(strings(parts@.take(k + 1)).last() == parts@[k as int]@);
        }
        let ghost prev = out@;
        if k > 0 {
            proof {
                reveal_strlit("+");
            }
            out.append("+");
        }
        let ghost base = out@;
        let part = parts[k].as_str();
        let n = part.unicode_len();
        let mut i: usize = 0;
        while i < n
            invariant
                n == part@.len(),
                i <= n,
                out@ == base + plus_for_space(part@.take(i as int)),
            decreases n - i,
        {
            let c = part.get_char(i);
            let ghost before = out@;
            if c == ' ' {
                proof {
                    reveal_strlit("+");
                }
                out.append("+");
                assert(out@ =~= before.push('+'));
            } else {
                let one = part.substring_char(i, i + 1);
                assert(one@ =~= seq![c]);
                out.append(one);
                assert(out@ =~= before.push(c));
            }
            proof {
                assert(plus_for_space(part@.take(i + 1)) =~= plus_for_space(part@.take(i as int)).push(
                    if c == ' ' { '+' } else { c },
                ));
            }
            i = i + 1;
        }
        proof {
            assert(part@.take(n as int) =~= part@);
            let q = strings(parts@.take(k + 1));
            if k == 0 {
                assert(base =~= Seq::<char>::empty());
                assert(out@ =~= plus_for_space(q[0]));
            } else {
                assert(base =~= prev + seq!['+']);
                assert(out@ =~= query_text(q.drop_last()) + seq!['+'] + plus_for_space(q.last()));
            }
        }
        k = k + 1;
    }
    proof {
        assert(parts@.take(k as int) =~= parts@);
    }
    out
}

/// `name` is one of `known`.
pub fn is_known_peer(name: &String, known: &Vec<String>) -> (r: bool)
    ensures
        r == exists|k: int| 0 <= k < known@.len() && known@[k]@ == name@,
{
    let mut k: usize = 0;
    while k < known.len()
        invariant
            k <= known@.len(),
            forall|j: int| 0 <= j < k ==> known@[j]@ != name@,
        decreases known@.len() - k,
    {
        if known[k] == *name {
            return true;
        }
        k = k + 1;
    }
    false
}

/// Reads a request from the command-line arguments: `query|search|find
/// <terms>...` (any case) for a search, `direct <peer> <packs>` for a
/// direct request to a known peer, the packs being the runs of digits of
/// the last argument.
pub fn parse_args(args: &Vec<String>, known_peers: &Vec<String>) -> (r: Result<Args, ArgsError>)
    ensures
        args@.len() < 2 ==> r == Err::<Args, ArgsError>(ArgsError::Insufficient),
        args@.len() >= 2 ==> ({
            let w = args@[0]@;
            if is_query_word(w) {
                r matches Ok(Args::Query { search }) && search@ == query_text(
                    strings(args@.skip(1)),
                )
            } else if is_direct_word(w) {
                if args@.len() != 3 {
                    r == Err::<Args, ArgsError>(ArgsError::Insufficient)
                } else if !(exists|k: int|
                    0 <= k < known_peers@.len() && known_peers@[k]@ == args@[1]@) {
                    r == Err::<Args, ArgsError>(ArgsError::UnknownPeer)
                } else {
                    r matches Ok(Args::Direct { bot, packs }) && bot@ == args@[1]@ && strings(
                        packs@,
                    ) == digit_runs(args@[2]@)
                }
            } else {
                r == Err::<Args, ArgsError>(ArgsError::InvalidCommand)
            }
        }),
{
    if args.len() < 2 {
        return Err(ArgsError::Insufficient);
    }
    let w = args[0].as_str();
    proof {
        reveal_strlit("query");
        reveal_strlit("search");
        reveal_strlit("find");
        reveal_strlit("direct");
    }
    if same_word(w, "query") || same_word(w, "search") || same_word(w, "find") {
        let search = query_string(args.as_slice().split_at(1).1);
        return Ok(Args::Query { search });
    }
    if !same_word(w, "direct") {
        return Err(ArgsError::InvalidCommand);
    }
    if args.len() != 3 {
        return Err(ArgsError::Insufficient);
    }
    if !is_known_peer(&args[1], known_peers) {
        return Err(ArgsError::UnknownPeer);
    }
    let bot = args[1].clone();
    let packs = pack_ids(args[2].as_str());
    Ok(Args::Direct { bot, packs })
}

/// A copy of the UTF-8 bytes of `s`.
pub fn bytes_of(s: &str) -> (r: Vec<u8>)
    ensures
        r@ == encode_utf8(s@),
{
    let b = s.as_bytes();
    let mut out: Vec<u8> = Vec::new();
    let mut i: usize = 0;
    while i < b.len()
        invariant
            i <= b@.len(),
            out@ == b@.take(i as int),
        decreases b@.len() - i,
    {
        out.push(b[i]);
        proof {
            assert(out@ =~= b@.take(i + 1));
        }
        i = i + 1;
    }
    proof {
        assert(b@.take(i as int) =~= b@);
    }
    out
}

/// The pack identifiers of a direct request as byte strings.
pub open spec fn pack_bytes(packs: Seq<String>) -> Seq<Seq<u8>> {
    packs.map_values(|p: String| encode_utf8(p@))
}

/// The session that carries out a direct request; a search term opens
/// none, since the search must first resolve it to a peer and packs.
pub fn session_for(args: &Args) -> (r: Option<Session>)
    ensures
        match args {
            Args::Query { .. } => r is None,
            Args::Direct { bot, packs } => r matches Some(s) && s@ == (SessionView {
                peer: encode_utf8(bot@),
                packs: pack_bytes(packs@),
                phase: Phase::AwaitingWelcome,
                announced: 0,
            }),
        },
{
    match args {
        Args::Query { .. } => None,
        Args::Direct { bot, packs } => {
            let peer = bytes_of(bot.as_str());
            let mut ids: Vec<Vec<u8>> = Vec::new();
            let mut i: usize = 0;
            while i < packs.len()
                invariant
                    i <= packs@.len(),
                    ids@.map_values(|p: Vec<u8>| p@) == pack_bytes(packs@.take(i as int)),
                decreases packs@.len() - i,
            {
                let id = bytes_of(packs[i].as_str());
                assert(id@ == encode_utf8(packs@[i as int]@));
                let ghost before = ids@;
                ids.push(id);
                proof {
                    assert(ids@.map_values(|p: Vec<u8>| p@) =~= before.map_values(
                        |p: Vec<u8>| p@,
                    ).push(id@));
                    assert(ids@.map_values(|p: Vec<u8>| p@) =~= pack_bytes(packs@.take(i + 1)));
                }
                i = i + 1;
            }
            proof {
                assert(packs@.take(i as int) =~= packs@);
            }
            Some(Session::new(peer, ids))
        },
    }
}

} // verus!
