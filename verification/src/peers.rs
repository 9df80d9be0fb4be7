//! The peer-list control payload: `PEERS:` followed by comma-separated
//! decimal peer ids, built when membership changes and parsed back by
//! clients. The central law: the list of ids survives the round trip.

use vstd::prelude::*;
use crate::codec::Message;
use crate::decimal::{all_digits, dec_digits, dec_value, is_digit, lemma_dec_digits_value,
    lemma_dec_digits_wf, lemma_dec_value_prefix_le, usize_to_dec};

verus! {

/// The ASCII bytes of `PEERS:`, the marker that opens every peer-list
/// control payload.
pub open spec fn peers_prefix() -> Seq<u8> {
    seq!['P' as u8, 'E' as u8, 'E' as u8, 'R' as u8, 'S' as u8, ':' as u8]
}

/// The comma byte that separates the listed ids.
pub open spec fn comma() -> u8 {
    ',' as u8
}

/// The ids joined with commas, each in decimal: `1,2,3`. Empty for no ids.
pub open spec fn join_ids(ids: Seq<usize>) -> Seq<u8>
    decreases ids.len(),
{
    if ids.len() == 0 {
        Seq::<u8>::empty()
    } else if ids.len() == 1 {
        dec_digits(ids[0] as nat)
    } else {
        dec_digits(ids[0] as nat) + seq![comma()] + join_ids(ids.drop_first())
    }
}

/// Whether one comma-separated entry denotes a peer id: nonempty, all
/// digits, and small enough for the machine.
pub open spec fn valid_entry(s: Seq<u8>) -> bool {
    s.len() > 0 && all_digits(s) && dec_value(s) <= usize::MAX
}

/// The ids one entry contributes: its value, or nothing when it does not
/// denote an id.
pub open spec fn entry_ids(s: Seq<u8>) -> Seq<usize> {
    if valid_entry(s) {
        seq![dec_value(s) as usize]
    } else {
        Seq::<usize>::empty()
    }
}

/// The index of the first comma in `s`, or `s.len()` when there is none.
pub open spec fn first_comma(s: Seq<u8>) -> int
    decreases s.len(),
{
    if s.len() == 0 {
        0
    } else if s[0] == comma() {
        0
    } else {
        1 + first_comma(s.drop_first())
    }
}

/// The ids read from a comma-separated list: each entry that denotes an id
/// contributes it, in order; entries that do not are passed over.
pub open spec fn split_ids(s: Seq<u8>) -> Seq<usize>
    decreases s.len(),
{
    let k = first_comma(s);
    if 0 <= k && k < s.len() {
        entry_ids(s.take(k)) + split_ids(s.skip(k + 1))
    } else {
        entry_ids(s)
    }
}

/// `first_comma` names the first comma: nothing before it is one, and it
/// lies within the string unless there is no comma at all.
pub proof fn lemma_first_comma_bounds(s: Seq<u8>)
    ensures
        0 <= first_comma(s) <= s.len(),
        first_comma(s) < s.len() ==> s[first_comma(s)] == comma(),
        forall|i: int| 0 <= i < first_comma(s) ==> s[i] != comma(),
    decreases s.len(),
{
    if s.len() > 0 && s[0] != comma() {
        let t = s.drop_first();
        lemma_first_comma_bounds(t);
        assert forall|i: int| 0 <= i < first_comma(s) implies s[i] != comma() by {
            if i > 0 {
                assert(s[i] == t[i - 1]);
            }
        }
    }
}

/// A string with no comma before `k`, and a comma (or its end) at `k`, has
/// its first comma exactly there.
pub proof fn lemma_first_comma_is(s: Seq<u8>, k: int)
    requires
        0 <= k <= s.len(),
        forall|i: int| 0 <= i < k ==> s[i] != comma(),
        k == s.len() || s[k] == comma(),
    ensures
        first_comma(s) == k,
    decreases k,
{
    if k == 0 {
        if s.len() > 0 {
            assert(s[0] == comma());
        }
    } else {
        assert(s[0] != comma());
        let t = s.drop_first();
        assert(forall|i: int| 0 <= i < k - 1 ==> t[i] == s[i + 1] && t[i] != comma());
        assert(k - 1 == t.len() || t[k - 1] == comma());
        lemma_first_comma_is(t, k - 1);
    }
}

/// The decimal form of an id is a valid entry denoting that id.
pub proof fn lemma_dec_digits_entry(id: usize)
    ensures
        valid_entry(dec_digits(id as nat)),
        entry_ids(dec_digits(id as nat)) == seq![id],
        forall|i: int|
            0 <= i < dec_digits(id as nat).len() ==> dec_digits(id as nat)[i] != comma(),
{
    lemma_dec_digits_wf(id as nat);
    lemma_dec_digits_value(id as nat);
    let d = dec_digits(id as nat);
    assert forall|i: int| 0 <= i < d.len() implies d[i] != comma() by {
        assert(is_digit(d[i]));
    }
    assert(entry_ids(d) =~= seq![id]);
}

/// Splitting the joined list gives back exactly the ids it was built from.
pub proof fn lemma_split_join(ids: Seq<usize>)
    ensures
        split_ids(join_ids(ids)) == ids,
    decreases ids.len(),
{
    let s = join_ids(ids);
    if ids.len() == 0 {
        assert(first_comma(s) == 0);
        assert(split_ids(s) =~= ids);
    } else if ids.len() == 1 {
        lemma_dec_digits_entry(ids[0]);
        lemma_first_comma_is(s, s.len() as int);
        assert(split_ids(s) == entry_ids(s));
        assert(split_ids(s) =~= ids);
    } else {
        let d = dec_digits(ids[0] as nat);
        let rest = join_ids(ids.drop_first());
        lemma_dec_digits_entry(ids[0]);
        lemma_dec_digits_wf(ids[0] as nat);
        assert(s == d + seq![comma()] + rest);
        assert forall|i: int| 0 <= i < d.len() implies s[i] != comma() by {
            assert(s[i] == d[i]);
        }
        assert(s[d.len() as int] == comma());
        lemma_first_comma_is(s, d.len() as int);
        let k = d.len() as int;
        assert(k < s.len());
        assert(s.take(k) =~= d);
        assert(s.skip(k + 1) =~= rest);
        lemma_split_join(ids.drop_first());
        assert(split_ids(s) == entry_ids(d) + ids.drop_first());
        assert(entry_ids(d) + ids.drop_first() =~= ids);
    }
}

/// The whole control payload announcing the given membership.
pub open spec fn peers_payload_spec(ids: Seq<usize>) -> Seq<u8> {
    peers_prefix() + join_ids(ids)
}

/// Whether a payload is a peer-list announcement: it opens with `PEERS:`.
pub open spec fn is_peer_list(content: Seq<u8>) -> bool {
    content.len() >= 6 && content.take(6) == peers_prefix()
}

/// Joining one more id extends the list by a comma and its decimal form.
pub proof fn lemma_join_snoc(ids: Seq<usize>, id: usize)
    ensures
        join_ids(ids.push(id)) == if ids.len() == 0 {
            dec_digits(id as nat)
        } else {
            join_ids(ids) + seq![comma()] + dec_digits(id as nat)
        },
    decreases ids.len(),
{
    let w = ids.push(id);
    if ids.len() == 0 {
        assert(w.len() == 1 && w[0] == id);
    } else if ids.len() == 1 {
        assert(w.len() == 2 && w[0] == ids[0]);
        assert(w.drop_first() =~= seq![id]);
        assert(join_ids(w.drop_first()) == dec_digits(id as nat));
    } else {
        assert(w.drop_first() =~= ids.drop_first().push(id));
        lemma_join_snoc(ids.drop_first(), id);
        assert(join_ids(w) == dec_digits(w[0] as nat) + seq![comma()] + join_ids(
            w.drop_first(),
        ));
        assert(join_ids(w) =~= join_ids(ids) + seq![comma()] + dec_digits(id as nat));
    }
}

/// The announced payload is a peer-list announcement and parses back to
/// exactly the ids it announces.
pub proof fn lemma_peers_payload_round_trip(ids: Seq<usize>)
    ensures
        is_peer_list(peers_payload_spec(ids)),
        peers_payload_spec(ids).skip(6) == join_ids(ids),
        split_ids(peers_payload_spec(ids).skip(6)) == ids,
{
    let p = peers_payload_spec(ids);
    assert(p.take(6) =~= peers_prefix());
    assert(p.skip(6) =~= join_ids(ids));
    lemma_split_join(ids);
}

/// Every byte of the joined list is ASCII: a digit or a comma.
pub proof fn lemma_join_ids_ascii(ids: Seq<usize>)
    ensures
        forall|i: int| 0 <= i < join_ids(ids).len() ==> join_ids(ids)[i] < 128,
    decreases ids.len(),
{
    let s = join_ids(ids);
    if ids.len() == 1 {
        lemma_dec_digits_wf(ids[0] as nat);
        assert forall|i: int| 0 <= i < s.len() implies s[i] < 128 by {
            assert(is_digit(s[i]));
        }
    } else if ids.len() > 1 {
        let d = dec_digits(ids[0] as nat);
        let rest = join_ids(ids.drop_first());
        lemma_dec_digits_wf(ids[0] as nat);
        lemma_join_ids_ascii(ids.drop_first());
        assert forall|i: int| 0 <= i < s.len() implies s[i] < 128 by {
            if i < d.len() {
                assert(s[i] == d[i]);
                assert(is_digit(d[i]));
            } else if i == d.len() {
                assert(s[i] == comma());
            } else {
                assert(s[i] == rest[i - d.len() - 1]);
            }
        }
    }
}

/// The ids joined with commas, as bytes: `1,2,3`.
pub fn join_ids_bytes(ids: &Vec<usize>) -> (r: Vec<u8>)
    ensures
        r@ == join_ids(ids@),
{
    let mut out: Vec<u8> = Vec::new();
    let mut i: usize = 0;
    while i < ids.len()
        invariant
            0 <= i <= ids@.len(),
            out@ == join_ids(ids@.take(i as int)),
        decreases ids@.len() - i,
    {
        if i > 0 {
            out.push(',' as u8);
        }
        let mut d = usize_to_dec(ids[i]);
        out.append(&mut d);
        proof {
            assert(ids@.take(i + 1) =~= ids@.take(i as int).push(ids@[i as int]));
            lemma_join_snoc(ids@.take(i as int), ids@[i as int]);
            assert(out@ =~= join_ids(ids@.take(i + 1)));
        }
        i = i + 1;
    }
    proof {
        assert(ids@.take(ids@.len() as int) =~= ids@);
    }
    out
}

/// The whole control payload announcing the given membership: `PEERS:`
/// and the ids joined with commas.
pub fn peers_payload(ids: &Vec<usize>) -> (r: Vec<u8>)
    ensures
        r@ == peers_payload_spec(ids@),
{
    let mut out: Vec<u8> = Vec::new();
    out.push('P' as u8);
    out.push('E' as u8);
    out.push('E' as u8);
    out.push('R' as u8);
    out.push('S' as u8);
    out.push(':' as u8);
    let mut rest = join_ids_bytes(ids);
    out.append(&mut rest);
    proof {
        assert(out@ =~= peers_payload_spec(ids@));
    }
    out
}

/// One entry of the list, read as a decimal id: `None` when it is empty,
/// not all digits, or too large for the machine.
fn parse_entry(s: &Vec<u8>, from: usize, to: usize) -> (r: Option<usize>)
    requires
        from <= to <= s@.len(),
    ensures
        r matches Some(v) ==> valid_entry(s@.subrange(from as int, to as int)) && v == dec_value(
            s@.subrange(from as int, to as int),
        ),
        r is None ==> !valid_entry(s@.subrange(from as int, to as int)),
{
    if from == to {
        return None;
    }
    let mut acc: usize = 0;
    let mut i: usize = from;
    while i < to
        invariant
            from <= i <= to <= s@.len(),
            all_digits(s@.subrange(from as int, i as int)),
            acc == dec_value(s@.subrange(from as int, i as int)),
        decreases to - i,
    {
        let b = s[i];
        if b < 48 || b > 57 {
            proof {
                assert(s@.subrange(from as int, to as int)[i - from] == b);
            }
            return None;
        }
        let d = (b - 48) as usize;
        if acc > usize::MAX / 10 || (acc == usize::MAX / 10 && d > usize::MAX % 10) {
            proof {
                let g = s@.subrange(from as int, i + 1);
                assert(g.drop_last() =~= s@.subrange(from as int, i as int));
                assert(g.last() == b);
                assert(all_digits(g));
                assert(dec_value(g) == acc * 10 + d);
                assert(acc * 10 + d > usize::MAX) by (nonlinear_arith)
                    requires
                        acc > usize::MAX / 10 || (acc == usize::MAX / 10 && d > usize::MAX % 10),
                        usize::MAX == 10 * (usize::MAX / 10) + usize::MAX % 10,
                        d >= 0;
                let e = s@.subrange(from as int, to as int);
                if all_digits(e) {
                    let j = i + 1 - from;
                    assert(e.len() == to - from);
                    assert(0 <= j <= e.len());
                    assert forall|m: int| 0 <= m < j implies e.take(j)[m] == g[m] by {
                        assert(e.take(j)[m] == e[m]);
                        assert(e[m] == s@[from + m]);
                        assert(g[m] == s@[from + m]);
                    }
                    assert(e.take(j) =~= g);
                    lemma_dec_value_prefix_le(e, j);
                }
            }
            return None;
        }
        acc = acc * 10 + d;
        proof {
            let g = s@.subrange(from as int, i + 1);
            assert(g.drop_last() =~= s@.subrange(from as int, i as int));
            assert(g.last() == b);
        }
        i = i + 1;
    }
    proof {
        assert(s@.subrange(from as int, to as int) =~= s@.subrange(from as int, i as int));
    }
    Some(acc)
}

/// The ids read from the comma-separated tail of a payload, starting at
/// `start`: exactly `split_ids` of those bytes.
pub fn parse_id_list(s: &Vec<u8>, start: usize) -> (r: Vec<usize>)
    requires
        start <= s@.len(),
    ensures
        r@ == split_ids(s@.skip(start as int)),
{
    let mut out: Vec<usize> = Vec::new();
    let mut p: usize = start;
    let mut done = false;
    while !done
        invariant
            start <= p <= s@.len(),
            !done ==> out@ + split_ids(s@.skip(p as int)) == split_ids(s@.skip(start as int)),
            done ==> out@ == split_ids(s@.skip(start as int)),
        decreases s@.len() - p + (if done { 0int } else { 1int }),
    {
        let ghost tail = s@.skip(p as int);
        let mut k: usize = p;
        while k < s.len() && s[k] != ',' as u8
            invariant
                p <= k <= s@.len(),
                forall|i: int| p <= i < k ==> s@[i] != comma(),
            decreases s@.len() - k,
        {
            k = k + 1;
        }
        proof {
            assert forall|i: int| 0 <= i < k - p implies tail[i] != comma() by {
                assert(tail[i] == s@[p + i]);
            }
            if k < s@.len() {
                assert(tail[k - p] == s@[k as int]);
            }
            lemma_first_comma_is(tail, k - p);
        }
        let entry = parse_entry(s, p, k);
        proof {
            assert(tail.take(k - p) =~= s@.subrange(p as int, k as int));
        }
        match entry {
            Some(v) => out.push(v),
            None => {},
        }
        if k == s.len() {
            proof {
                assert(first_comma(tail) == k - p);
                assert(!(first_comma(tail) < tail.len()));
                assert(split_ids(tail) == entry_ids(tail));
                assert(tail =~= s@.subrange(p as int, k as int));
            }
            done = true;
        } else {
            proof {
                assert(first_comma(tail) == k - p && k - p < tail.len());
                assert(split_ids(tail) == entry_ids(tail.take(k - p)) + split_ids(
                    tail.skip(k - p + 1),
                ));
                assert(tail.skip(k - p + 1) =~= s@.skip(k + 1));
            }
            p = k + 1;
        }
    }
    out
}

/// A relay-originated control message, as a client understands it.
#[derive(Debug)]
pub enum SystemMessage {
    /// The current membership: the peer ids the relay announced.
    Peers(Vec<usize>),
}

/// Why a message is not a control message this client acts on.
#[derive(Debug, PartialEq, Eq, Structural)]
pub enum SystemMessageError {
    NotASysMsg,
}

/// Reads a reassembled message as a control message: it must carry the
/// reserved peer id 0 and open with `PEERS:`; the ids after the marker are
/// then the announced membership. Anything else is not a system message.
pub fn read_system_message(message: Message) -> (r: Result<SystemMessage, SystemMessageError>)
    ensures
        r is Ok <==> (message@.peer == 0 && is_peer_list(message@.content)),
        r matches Ok(m) ==> m matches SystemMessage::Peers(v) && v@ == split_ids(
            message@.content.skip(6),
        ),
        r matches Err(e) ==> e == SystemMessageError::NotASysMsg,
{
    if message.peer != 0 {
        return Err(SystemMessageError::NotASysMsg);
    }
    let c = &message.content;
    if c.len() < 6 {
        proof {
            assert(!is_peer_list(message@.content));
        }
        return Err(SystemMessageError::NotASysMsg);
    }
    if c[0] == 'P' as u8 && c[1] == 'E' as u8 && c[2] == 'E' as u8 && c[3] == 'R' as u8 && c[4]
        == 'S' as u8 && c[5] == ':' as u8 {
        proof {
            assert(message@.content.take(6) =~= peers_prefix());
        }
        let ids = parse_id_list(c, 6);
        Ok(SystemMessage::Peers(ids))
    } else {
        proof {
            let t = message@.content.take(6);
            assert(t[0] == message@.content[0] && t[1] == message@.content[1] && t[2]
                == message@.content[2] && t[3] == message@.content[3] && t[4]
                == message@.content[4] && t[5] == message@.content[5]);
        }
        Err(SystemMessageError::NotASysMsg)
    }
}

} // verus!
