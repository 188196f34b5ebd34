//! The RESP wire format.
//!
//! Outbound, the six reply encodings are defined as functions from byte
//! strings to byte strings.  Inbound, a request frame is an array of bulk
//! strings: `*<N>\r\n` followed by `N` elements `$<L>\r\n<L bytes>\r\n`.
//! [`spec_parse`] gives the meaning of a byte string under that grammar —
//! one complete frame, a prefix of one, or a malformed frame — and
//! [`parse_frame`] is the executable decoder, proved to agree with it.

use vstd::prelude::*;

use crate::bytes::copy_range;
use crate::num::{all_digits, dec_val, dec_digits, dec_int, is_digit, dec_value_u64, lemma_dec_digits};

verus! {

/// The two-byte line terminator.
pub open spec fn crlf() -> Seq<u8> {
    seq![13u8, 10u8]
}

/// Encoding of a simple string reply: `+S\r\n`.
pub open spec fn enc_simple(s: Seq<u8>) -> Seq<u8> {
    seq!['+' as u8] + s + crlf()
}

/// Encoding of a simple error reply: `-E\r\n`.
pub open spec fn enc_error(s: Seq<u8>) -> Seq<u8> {
    seq!['-' as u8] + s + crlf()
}

/// Encoding of an integer reply: `:N\r\n`.
pub open spec fn enc_integer(n: int) -> Seq<u8> {
    seq![':' as u8] + dec_int(n) + crlf()
}

/// Encoding of a bulk string reply: `$len\r\nB\r\n`.
pub open spec fn enc_bulk(s: Seq<u8>) -> Seq<u8> {
    seq!['$' as u8] + dec_digits(s.len()) + crlf() + s + crlf()
}

/// Encoding of the null bulk string reply: `$-1\r\n`.
pub open spec fn enc_null_bulk() -> Seq<u8> {
    seq!['$' as u8, '-' as u8, '1' as u8] + crlf()
}

/// Encoding of an array header: `*K\r\n`.
pub open spec fn enc_array_header(n: nat) -> Seq<u8> {
    seq!['*' as u8] + dec_digits(n) + crlf()
}

/// A `\r\n` pair starts at position `i` of `s`.
pub open spec fn is_crlf_at(s: Seq<u8>, i: int) -> bool {
    s[i] == 13 && s[i + 1] == 10
}

/// The position of the first `\r\n` pair of `s`, if any.
pub open spec fn find_crlf(s: Seq<u8>) -> Option<int>
    decreases s.len(),
{
    if s.len() < 2 {
        None
    } else if s[0] == 13 && s[1] == 10 {
        Some(0)
    } else {
        match find_crlf(s.drop_first()) {
            Some(i) => Some(i + 1),
            None => None,
        }
    }
}

/// `find_crlf` names the first `\r\n` pair, and `None` means there is none.
pub proof fn lemma_find_crlf(s: Seq<u8>)
    ensures
        match find_crlf(s) {
            Some(i) => 0 <= i && i + 1 < s.len() && is_crlf_at(s, i) && forall|j: int|
                0 <= j < i ==> !is_crlf_at(s, j),
            None => forall|j: int| 0 <= j && j + 1 < s.len() ==> !is_crlf_at(s, j),
        },
    decreases s.len(),
{
    if s.len() < 2 {
    } else if s[0] == 13 && s[1] == 10 {
    } else {
        lemma_find_crlf(s.drop_first());
        let t = s.drop_first();
        match find_crlf(t) {
            Some(i) => {
                assert(is_crlf_at(s, i + 1)) by {
                    assert(t[i] == s[i + 1] && t[i + 1] == s[i + 2]);
                }
                assert forall|j: int| 0 <= j < i + 1 implies !is_crlf_at(s, j) by {
                    if j >= 1 {
                        assert(!is_crlf_at(t, j - 1));
                        assert(t[j - 1] == s[j] && t[j] == s[j + 1]);
                    }
                }
            },
            None => {
                assert forall|j: int| 0 <= j && j + 1 < s.len() implies !is_crlf_at(s, j) by {
                    if j >= 1 {
                        assert(!is_crlf_at(t, j - 1));
                        assert(t[j - 1] == s[j] && t[j] == s[j + 1]);
                    }
                }
            },
        }
    }
}

/// A position that holds the first `\r\n` pair is what `find_crlf` returns.
pub proof fn lemma_find_crlf_unique(s: Seq<u8>, i: int)
    requires
        0 <= i,
        i + 1 < s.len(),
        is_crlf_at(s, i),
        forall|j: int| 0 <= j < i ==> !is_crlf_at(s, j),
    ensures
        find_crlf(s) == Some(i),
{
    lemma_find_crlf(s);
}

/// The outcome of reading a run of bulk-string elements.
pub enum ElemsOutcome {
    /// All elements were present; they end at position `end`.
    Done { elems: Seq<Seq<u8>>, end: int },
    /// The input ends before the elements do.
    Incomplete,
    /// The input disagrees with the grammar.
    Malformed,
}

/// The outcome of reading one request frame.
pub enum FrameOutcome {
    /// A complete frame of `elems`, occupying the first `used` bytes.
    Frame { elems: Seq<Seq<u8>>, used: int },
    /// The input is a proper prefix of a frame.
    Incomplete,
    /// The input disagrees with the grammar.
    Malformed,
}

/// Reads `n` bulk-string elements of `input` starting at `pos`.
pub open spec fn spec_parse_elems(input: Seq<u8>, pos: int, n: nat) -> ElemsOutcome
    decreases n,
{
    if n == 0 {
        ElemsOutcome::Done { elems: Seq::empty(), end: pos }
    } else {
        match find_crlf(input.skip(pos)) {
            None => ElemsOutcome::Incomplete,
            Some(i) => {
                let line = input.skip(pos).take(i);
                if !(line.len() >= 2 && line[0] == '$' as u8 && all_digits(line.skip(1))) {
                    ElemsOutcome::Malformed
                } else if dec_val(line.skip(1)) > usize::MAX {
                    ElemsOutcome::Malformed
                } else {
                    let l = dec_val(line.skip(1));
                    let start = pos + i + 2;
                    if input.len() < start + l + 2 {
                        ElemsOutcome::Incomplete
                    } else if !is_crlf_at(input, start + l) {
                        ElemsOutcome::Malformed
                    } else {
                        match spec_parse_elems(input, start + l + 2, (n - 1) as nat) {
                            ElemsOutcome::Done { elems, end } => ElemsOutcome::Done {
                                elems: seq![input.subrange(start, start + l)] + elems,
                                end,
                            },
                            o => o,
                        }
                    }
                }
            },
        }
    }
}

/// Reads one request frame off the front of `input`.
pub open spec fn spec_parse(input: Seq<u8>) -> FrameOutcome {
    match find_crlf(input) {
        None => FrameOutcome::Incomplete,
        Some(i) => {
            let line = input.take(i);
            if !(line.len() >= 2 && line[0] == '*' as u8 && all_digits(line.skip(1))) {
                FrameOutcome::Malformed
            } else if dec_val(line.skip(1)) == 0 || dec_val(line.skip(1)) > usize::MAX {
                FrameOutcome::Malformed
            } else {
                match spec_parse_elems(input, i + 2, dec_val(line.skip(1)) as nat) {
                    ElemsOutcome::Done { elems, end } => FrameOutcome::Frame { elems, used: end },
                    ElemsOutcome::Incomplete => FrameOutcome::Incomplete,
                    ElemsOutcome::Malformed => FrameOutcome::Malformed,
                }
            }
        },
    }
}

/// What the executable decoder reports about the front of its input.
pub enum FrameResult {
    /// A complete frame: its elements and how many bytes it occupied.
    Frame(Vec<Vec<u8>>, usize),
    /// More bytes must be read before a frame can be decoded.
    Incomplete,
    /// The bytes disagree with the grammar; the connection is beyond help.
    Malformed,
}

/// The position of the first `\r\n` pair at or after `from`, if any.
fn find_crlf_from(v: &Vec<u8>, from: usize) -> (r: Option<usize>)
    requires
        from <= v@.len(),
    ensures
        match r {
            Some(i) => from <= i && i + 1 < v@.len() && find_crlf(v@.skip(from as int)) == Some(
                i - from,
            ),
            None => find_crlf(v@.skip(from as int)) is None,
        },
{
    let ghost s = v@.skip(from as int);
    proof {
        assert(forall|k: int| 0 <= k < s.len() ==> s[k] == v@[from + k]);
    }
    let mut j: usize = from;
    while v.len() > 0 && j < v.len() - 1
        invariant
            from <= j,
            j <= v@.len(),
            s == v@.skip(from as int),
            forall|k: int| 0 <= k < j - from ==> !is_crlf_at(s, k),
        decreases v@.len() - j,
    {
        if v[j] == 13 && v[j + 1] == 10 {
            proof {
                assert(is_crlf_at(s, j - from));
                lemma_find_crlf_unique(s, j - from);
            }
            return Some(j);
        }
        proof {
            assert(!is_crlf_at(s, j - from));
        }
        j += 1;
    }
    proof {
        lemma_find_crlf(s);
        if find_crlf(s) is Some {
            let i = find_crlf(s).unwrap();
            assert(is_crlf_at(s, i));
            assert(i < j - from);
        }
    }
    None
}

/// Decodes one request frame off the front of `input`, exactly as
/// [`spec_parse`] reads it.
pub fn parse_frame(input: &Vec<u8>) -> (r: FrameResult)
    ensures
        match r {
            FrameResult::Frame(elems, used) => spec_parse(input@) == (FrameOutcome::Frame {
                elems: elems.deep_view(),
                used: used as int,
            }) && elems@.len() >= 1 && used <= input@.len(),
            FrameResult::Incomplete => spec_parse(input@) == FrameOutcome::Incomplete,
            FrameResult::Malformed => spec_parse(input@) == FrameOutcome::Malformed,
        },
{
    let ilen: usize = input.len();
    proof {
        assert(input@.skip(0) =~= input@);
        assert(input@.len() <= usize::MAX);
    }
    let header_end = match find_crlf_from(input, 0) {
        None => {
            return FrameResult::Incomplete;
        },
        Some(i) => i,
    };
    let ghost line = input@.take(header_end as int);
    if header_end < 2 || input[0] != 42 {
        return FrameResult::Malformed;
    }
    proof {
        assert(line.skip(1) =~= input@.subrange(1, header_end as int));
    }
    let count = match dec_value_u64(input, 1, header_end) {
        None => {
            proof {
                assert(usize::MAX <= u64::MAX);
            }
            return FrameResult::Malformed;
        },
        Some(c) => c,
    };
    if count == 0 || count > usize::MAX as u64 {
        return FrameResult::Malformed;
    }
    let n: usize = count as usize;
    let ghost full = spec_parse_elems(input@, header_end + 2, n as nat);
    let mut elems: Vec<Vec<u8>> = Vec::new();
    proof {
        if full is Done {
            assert(Seq::<Seq<u8>>::empty() + full->Done_elems =~= full->Done_elems);
        }
        assert(elems.deep_view() =~~= Seq::<Seq<u8>>::empty());
    }
    let mut pos: usize = header_end + 2;
    let mut remaining: usize = n;
    while remaining > 0
        invariant
            input@.len() <= usize::MAX,
            pos <= input@.len(),
            n >= 1,
            remaining <= n,
            elems@.len() == n - remaining,
            full == spec_parse_elems(input@, header_end as int + 2, n as nat),
            spec_parse(input@) == (match full {
                ElemsOutcome::Done { elems: es, end } => FrameOutcome::Frame { elems: es, used: end },
                ElemsOutcome::Incomplete => FrameOutcome::Incomplete,
                ElemsOutcome::Malformed => FrameOutcome::Malformed,
            }),
            ({
                let cur = spec_parse_elems(input@, pos as int, remaining as nat);
                match cur {
                    ElemsOutcome::Done { elems: es, end } => full == (ElemsOutcome::Done {
                        elems: elems.deep_view() + es,
                        end,
                    }),
                    ElemsOutcome::Incomplete => full == ElemsOutcome::Incomplete,
                    ElemsOutcome::Malformed => full == ElemsOutcome::Malformed,
                }
            }),
        decreases remaining,
    {
        let ghost cur = spec_parse_elems(input@, pos as int, remaining as nat);
        let line_end = match find_crlf_from(input, pos) {
            None => {
                return FrameResult::Incomplete;
            },
            Some(i) => i,
        };
        let ghost eline = input@.skip(pos as int).take(line_end - pos as int);
        proof {
            assert(forall|k: int| 0 <= k < eline.len() ==> #[trigger] eline[k] == input@[pos + k]);
        }
        if line_end - pos < 2 || input[pos] != 36 {
            return FrameResult::Malformed;
        }
        proof {
            assert(eline.skip(1) =~= input@.subrange(pos as int + 1, line_end as int));
        }
        let len64 = match dec_value_u64(input, pos + 1, line_end) {
            None => {
                proof {
                    assert(usize::MAX <= u64::MAX);
                }
                return FrameResult::Malformed;
            },
            Some(c) => c,
        };
        if len64 > usize::MAX as u64 {
            return FrameResult::Malformed;
        }
        let l: usize = len64 as usize;
        let start = line_end + 2;
        let avail = input.len() - start;
        if avail < 2 || avail - 2 < l {
            return FrameResult::Incomplete;
        }
        if input[start + l] != 13 || input[start + l + 1] != 10 {
            return FrameResult::Malformed;
        }
        let elem = copy_range(input, start, start + l);
        let ghost es_old = elems.deep_view();
        proof {
            let next = spec_parse_elems(input@, start as int + l + 2, (remaining - 1) as nat);
            assert(cur == (match next {
                ElemsOutcome::Done { elems: es, end } => ElemsOutcome::Done {
                    elems: seq![input@.subrange(start as int, start as int + l)] + es,
                    end,
                },
                o => o,
            }));
        }
        elems.push(elem);
        proof {
            assert(elems.deep_view() =~~= es_old.push(elem@));
            let next = spec_parse_elems(input@, start as int + l + 2, (remaining - 1) as nat);
            if next is Done {
                let es = next->Done_elems;
                let end = next->Done_end;
                assert(es_old + (seq![elem@] + es) =~= es_old.push(elem@) + es);
            }
        }
        pos = start + l + 2;
        remaining -= 1;
    }
    proof {
        let cur = spec_parse_elems(input@, pos as int, 0);
        assert(cur == ElemsOutcome::Done { elems: Seq::<Seq<u8>>::empty(), end: pos as int });
        assert(elems.deep_view() + Seq::<Seq<u8>>::empty() =~= elems.deep_view());
    }
    FrameResult::Frame(elems, pos)
}

/// A frame that can be written down: at least one element, every size
/// within the machine's reach.
pub open spec fn encodable_frame(es: Seq<Seq<u8>>) -> bool {
    &&& 1 <= es.len() <= usize::MAX
    &&& forall|i: int| 0 <= i < es.len() ==> (#[trigger] es[i]).len() <= usize::MAX
}

/// The wire encoding of a run of bulk-string elements.
pub open spec fn encode_elems(es: Seq<Seq<u8>>) -> Seq<u8>
    decreases es.len(),
{
    if es.len() == 0 {
        Seq::empty()
    } else {
        enc_bulk(es.first()) + encode_elems(es.drop_first())
    }
}

/// The wire encoding of a whole request frame.
pub open spec fn encode_frame(es: Seq<Seq<u8>>) -> Seq<u8> {
    enc_array_header(es.len()) + encode_elems(es)
}

/// A line free of carriage returns followed by `\r\n` puts the first
/// `\r\n` pair right after the line.
proof fn lemma_find_line(s: Seq<u8>, p: int)
    requires
        0 <= p,
        p + 1 < s.len(),
        forall|j: int| 0 <= j < p ==> s[j] != 13,
        s[p] == 13,
        s[p + 1] == 10,
    ensures
        find_crlf(s) == Some(p),
{
    assert forall|j: int| 0 <= j < p implies !is_crlf_at(s, j) by {
        assert(s[j] != 13);
    }
    lemma_find_crlf_unique(s, p);
}

proof fn lemma_encode_elems_parse(input: Seq<u8>, pos: int, es: Seq<Seq<u8>>)
    requires
        0 <= pos,
        pos + encode_elems(es).len() <= input.len(),
        input.subrange(pos, pos + encode_elems(es).len()) == encode_elems(es),
        forall|i: int| 0 <= i < es.len() ==> (#[trigger] es[i]).len() <= usize::MAX,
    ensures
        spec_parse_elems(input, pos, es.len()) == (ElemsOutcome::Done {
            elems: es,
            end: pos + encode_elems(es).len(),
        }),
    decreases es.len(),
{
    let enc = encode_elems(es);
    if es.len() == 0 {
        assert(enc.len() == 0);
        assert(es =~= Seq::<Seq<u8>>::empty());
    } else {
        let e0 = es[0];
        assert(es.first() == e0);
        let dl = dec_digits(e0.len());
        lemma_dec_digits(e0.len());
        let bulk = enc_bulk(e0);
        let tail = encode_elems(es.drop_first());
        assert(enc == bulk + tail);
        assert(bulk.len() == 5 + dl.len() + e0.len());
        assert forall|j: int| 0 <= j < enc.len() implies input[pos + j] == enc[j] by {
            assert(input.subrange(pos, pos + enc.len())[j] == input[pos + j]);
        }
        assert(bulk[0] == '$' as u8);
        assert(forall|k: int| 0 <= k < dl.len() ==> bulk[1 + k] == dl[k]);
        assert(bulk[1 + dl.len() as int] == 13);
        assert(bulk[2 + dl.len() as int] == 10);
        assert(forall|k: int| 0 <= k < e0.len() ==> bulk[3 + dl.len() as int + k] == e0[k]);
        assert(bulk[3 + dl.len() as int + e0.len() as int] == 13);
        assert(bulk[4 + dl.len() as int + e0.len() as int] == 10);
        let sk = input.skip(pos);
        assert forall|j: int| 0 <= j < enc.len() implies sk[j] == enc[j] by {
            assert(sk[j] == input[pos + j]);
        }
        let p = 1 + dl.len() as int;
        assert forall|j: int| 0 <= j < p implies sk[j] != 13 by {
            if j == 0 {
                assert(sk[0] == '$' as u8);
            } else {
                assert(sk[j] == dl[j - 1]);
                assert(crate::num::is_digit(dl[j - 1]));
            }
        }
        lemma_find_line(sk, p);
        let line = sk.take(p);
        assert(line =~= seq!['$' as u8] + dl);
        assert(line.skip(1) =~= dl);
        assert(line.len() >= 2 && line[0] == '$' as u8 && all_digits(line.skip(1)));
        assert(dec_val(dl) == e0.len());
        let l = e0.len() as int;
        let start = pos + p + 2;
        assert(start + l + 2 == pos + bulk.len());
        assert(input.len() >= start + l + 2);
        assert(is_crlf_at(input, start + l)) by {
            let j1 = 3 + dl.len() as int + e0.len() as int;
            let j2 = 4 + dl.len() as int + e0.len() as int;
            assert(input[pos + j1] == enc[j1]);
            assert(input[pos + j2] == enc[j2]);
            assert(enc[j1] == bulk[j1]);
            assert(enc[j2] == bulk[j2]);
            assert(start + l == pos + j1);
        }
        assert forall|k: int| 0 <= k < l implies input.subrange(start, start + l)[k] == e0[k] by {
            let j = 3 + dl.len() as int + k;
            assert(input[pos + j] == enc[j]);
            assert(enc[j] == bulk[j]);
            assert(bulk[j] == e0[k]);
            assert(start + k == pos + j);
        }
        assert(input.subrange(start, start + l) =~= e0);
        let pos2 = start + l + 2;
        assert forall|k: int| 0 <= k < tail.len() implies input.subrange(
            pos2,
            pos2 + tail.len(),
        )[k] == tail[k] by {
            let j = bulk.len() as int + k;
            assert(input[pos + j] == enc[j]);
            assert(enc[j] == tail[k]);
            assert(pos2 + k == pos + j);
        }
        assert(input.subrange(pos2, pos2 + tail.len()) =~= tail);
        assert(forall|i: int| 0 <= i < es.drop_first().len()
            ==> (#[trigger] es.drop_first()[i]).len() <= usize::MAX) by {
            assert(forall|i: int| 0 <= i < es.drop_first().len()
                ==> #[trigger] es.drop_first()[i] == es[i + 1]);
        }
        lemma_encode_elems_parse(input, pos2, es.drop_first());
        assert(seq![e0] + es.drop_first() =~= es);
        assert(spec_parse_elems(input, pos, es.len()) == (ElemsOutcome::Done {
            elems: seq![input.subrange(start, start + l)] + es.drop_first(),
            end: pos2 + tail.len(),
        }));
        assert(seq![input.subrange(start, start + l)] + es.drop_first() =~= es);
        assert(pos2 + tail.len() == pos + enc.len());
    }
}

/// Decoding inverts encoding: a well-formed frame written to the wire, with
/// anything at all after it, reads back as exactly its elements, consuming
/// exactly its own bytes.
#[verifier::rlimit(50)]
pub proof fn lemma_parse_round_trip(es: Seq<Seq<u8>>, rest: Seq<u8>)
    requires
        encodable_frame(es),
    ensures
        spec_parse(encode_frame(es) + rest) == (FrameOutcome::Frame {
            elems: es,
            used: encode_frame(es).len() as int,
        }),
{
    let input = encode_frame(es) + rest;
    let n = es.len();
    let dn = dec_digits(n);
    lemma_dec_digits(n);
    let hdr = enc_array_header(n);
    assert(hdr.len() == 3 + dn.len());
    let body = encode_elems(es);
    assert(input.len() == hdr.len() + body.len() + rest.len());
    assert forall|j: int| 0 <= j < hdr.len() implies input[j] == hdr[j] by {
        assert(encode_frame(es)[j] == hdr[j]);
    }
    assert(hdr[0] == '*' as u8);
    assert(forall|k: int| 0 <= k < dn.len() ==> hdr[1 + k] == dn[k]);
    assert(hdr[1 + dn.len() as int] == 13);
    assert(hdr[2 + dn.len() as int] == 10);
    let p = 1 + dn.len() as int;
    assert forall|j: int| 0 <= j < p implies input[j] != 13 by {
        if j == 0 {
            assert(input[0] == '*' as u8);
        } else {
            assert(input[j] == dn[j - 1]);
            assert(crate::num::is_digit(dn[j - 1]));
        }
    }
    lemma_find_line(input, p);
    let line = input.take(p);
    assert(line =~= seq!['*' as u8] + dn);
    assert(line.skip(1) =~= dn);
    assert(line.len() >= 2 && line[0] == '*' as u8 && all_digits(line.skip(1)));
    assert(dec_val(dn) == n);
    assert(1 <= dec_val(line.skip(1)) <= usize::MAX);
    assert forall|k: int| 0 <= k < body.len() implies input.subrange(
        p + 2,
        p + 2 + body.len(),
    )[k] == body[k] by {
        let j = hdr.len() as int + k;
        assert(input[j] == encode_frame(es)[j]);
        assert(encode_frame(es)[j] == body[k]);
        assert(p + 2 + k == j);
    }
    assert(input.subrange(p + 2, p + 2 + body.len()) =~= body);
    lemma_encode_elems_parse(input, p + 2, es);
    assert(p + 2 + body.len() == encode_frame(es).len());
}

} // verus!
