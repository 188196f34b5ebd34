//! The laws of the command set, proved once and for all against the
//! session's specification: round trips, expiry, counter behaviour, and
//! what transactions replay.

use vstd::prelude::*;
use vstd::string::StringSliceAdditionalSpecFns;

use crate::bytes::upper_bytes;
use crate::num::{dec_int, dec_digits, dec_val, is_digit, lemma_dec_digits, lemma_parse_i64_roundtrip, spec_parse_i64, spec_parse_u64};
use crate::kv_store::{live_at, live_get, sat_add, ItemModel};
use crate::protocol::{exec_step, queueable, queued_replies, replay, session_run, session_step, spec_classify, CmdKind, CommandModel, InfoModel, SessionMode};
use crate::resp::{enc_array_header, enc_bulk, enc_error, enc_integer, enc_null_bulk, enc_simple};

verus! {

/// The byte spellings of the command words, and how each classifies.
proof fn classify_facts()
    ensures
        "PING".spec_bytes() == seq!['P' as u8, 'I' as u8, 'N' as u8, 'G' as u8],
        "COMMAND".spec_bytes() == seq![
            'C' as u8, 'O' as u8, 'M' as u8, 'M' as u8, 'A' as u8, 'N' as u8, 'D' as u8,
        ],
        "ECHO".spec_bytes() == seq!['E' as u8, 'C' as u8, 'H' as u8, 'O' as u8],
        "SET".spec_bytes() == seq!['S' as u8, 'E' as u8, 'T' as u8],
        "GET".spec_bytes() == seq!['G' as u8, 'E' as u8, 'T' as u8],
        "INCR".spec_bytes() == seq!['I' as u8, 'N' as u8, 'C' as u8, 'R' as u8],
        "INFO".spec_bytes() == seq!['I' as u8, 'N' as u8, 'F' as u8, 'O' as u8],
        "MULTI".spec_bytes() == seq!['M' as u8, 'U' as u8, 'L' as u8, 'T' as u8, 'I' as u8],
        "EXEC".spec_bytes() == seq!['E' as u8, 'X' as u8, 'E' as u8, 'C' as u8],
        "DISCARD".spec_bytes() == seq![
            'D' as u8, 'I' as u8, 'S' as u8, 'C' as u8, 'A' as u8, 'R' as u8, 'D' as u8,
        ],
        "PX".spec_bytes() == seq!['P' as u8, 'X' as u8],
        spec_classify("PING".spec_bytes()) == CmdKind::Ping,
        spec_classify("SET".spec_bytes()) == CmdKind::SetKey,
        spec_classify("GET".spec_bytes()) == CmdKind::Get,
        spec_classify("INCR".spec_bytes()) == CmdKind::Incr,
        spec_classify("MULTI".spec_bytes()) == CmdKind::Multi,
        spec_classify("EXEC".spec_bytes()) == CmdKind::Exec,
        spec_classify("DISCARD".spec_bytes()) == CmdKind::Discard,
{
    broadcast use vstd::string::is_ascii_spec_bytes;

    reveal_strlit("PING");
    assert("PING"@ =~= seq!['P', 'I', 'N', 'G']);
    assert(vstd::string::is_ascii("PING"));
    assert("PING".spec_bytes() =~= seq!['P' as u8, 'I' as u8, 'N' as u8, 'G' as u8]);
    reveal_strlit("COMMAND");
    assert("COMMAND"@ =~= seq!['C', 'O', 'M', 'M', 'A', 'N', 'D']);
    assert(vstd::string::is_ascii("COMMAND"));
    assert("COMMAND".spec_bytes() =~= seq![
        'C' as u8, 'O' as u8, 'M' as u8, 'M' as u8, 'A' as u8, 'N' as u8, 'D' as u8,
    ]);
    reveal_strlit("ECHO");
    assert("ECHO"@ =~= seq!['E', 'C', 'H', 'O']);
    assert(vstd::string::is_ascii("ECHO"));
    assert("ECHO".spec_bytes() =~= seq!['E' as u8, 'C' as u8, 'H' as u8, 'O' as u8]);
    reveal_strlit("SET");
    assert("SET"@ =~= seq!['S', 'E', 'T']);
    assert(vstd::string::is_ascii("SET"));
    assert("SET".spec_bytes() =~= seq!['S' as u8, 'E' as u8, 'T' as u8]);
    reveal_strlit("GET");
    assert("GET"@ =~= seq!['G', 'E', 'T']);
    assert(vstd::string::is_ascii("GET"));
    assert("GET".spec_bytes() =~= seq!['G' as u8, 'E' as u8, 'T' as u8]);
    reveal_strlit("INCR");
    assert("INCR"@ =~= seq!['I', 'N', 'C', 'R']);
    assert(vstd::string::is_ascii("INCR"));
    assert("INCR".spec_bytes() =~= seq!['I' as u8, 'N' as u8, 'C' as u8, 'R' as u8]);
    reveal_strlit("INFO");
    assert("INFO"@ =~= seq!['I', 'N', 'F', 'O']);
    assert(vstd::string::is_ascii("INFO"));
    assert("INFO".spec_bytes() =~= seq!['I' as u8, 'N' as u8, 'F' as u8, 'O' as u8]);
    reveal_strlit("MULTI");
    assert("MULTI"@ =~= seq!['M', 'U', 'L', 'T', 'I']);
    assert(vstd::string::is_ascii("MULTI"));
    assert("MULTI".spec_bytes() =~= seq!['M' as u8, 'U' as u8, 'L' as u8, 'T' as u8, 'I' as u8]);
    reveal_strlit("EXEC");
    assert("EXEC"@ =~= seq!['E', 'X', 'E', 'C']);
    assert(vstd::string::is_ascii("EXEC"));
    assert("EXEC".spec_bytes() =~= seq!['E' as u8, 'X' as u8, 'E' as u8, 'C' as u8]);
    reveal_strlit("DISCARD");
    assert("DISCARD"@ =~= seq!['D', 'I', 'S', 'C', 'A', 'R', 'D']);
    assert(vstd::string::is_ascii("DISCARD"));
    assert("DISCARD".spec_bytes() =~= seq![
        'D' as u8, 'I' as u8, 'S' as u8, 'C' as u8, 'A' as u8, 'R' as u8, 'D' as u8,
    ]);
    reveal_strlit("PX");
    assert("PX"@ =~= seq!['P', 'X']);
    assert(vstd::string::is_ascii("PX"));
    assert("PX".spec_bytes() =~= seq!['P' as u8, 'X' as u8]);
}

/// Round trip without expiry: `SET K V` answers `+OK` and a `GET K` at any
/// later reading of the clock answers the bulk string `V`.
pub proof fn lemma_set_get_round_trip(
    k: Seq<u8>,
    v: Seq<u8>,
    m: Map<Seq<u8>, ItemModel>,
    info: InfoModel,
    now1: u64,
    now2: u64,
)
    ensures
        ({
            let set_cmd = CommandModel { name: "SET".spec_bytes(), args: seq![k, v] };
            let get_cmd = CommandModel { name: "GET".spec_bytes(), args: seq![k] };
            let s = exec_step(set_cmd, m, info, now1);
            let g = exec_step(get_cmd, s.1, info, now2);
            &&& s.0 == enc_simple("OK".spec_bytes())
            &&& s.1 == m.insert(k, ItemModel { val: v, expire_at: None })
            &&& g.0 == enc_bulk(v)
            &&& g.1 == s.1
        }),
{
    classify_facts();
    let set_cmd = CommandModel { name: "SET".spec_bytes(), args: seq![k, v] };
    let s = exec_step(set_cmd, m, info, now1);
    assert(set_cmd.args.len() == 2 && set_cmd.args[0] == k && set_cmd.args[1] == v);
    let m1 = m.insert(k, ItemModel { val: v, expire_at: None });
    assert(m1.contains_key(k) && m1[k] == ItemModel { val: v, expire_at: None });
    assert(live_at(m1[k], now2));
}

/// Expiry: after `SET K V PX ms` at time `t`, a `GET K` answers the bulk
/// string `V` at every reading up to `t + ms`, and the null bulk string at
/// every reading past it.
pub proof fn lemma_ttl_expiry(
    k: Seq<u8>,
    v: Seq<u8>,
    ms: u64,
    m: Map<Seq<u8>, ItemModel>,
    info: InfoModel,
    t: u64,
    now: u64,
)
    ensures
        ({
            let set_cmd = CommandModel {
                name: "SET".spec_bytes(),
                args: seq![k, v, "PX".spec_bytes(), dec_digits(ms as nat)],
            };
            let get_cmd = CommandModel { name: "GET".spec_bytes(), args: seq![k] };
            let s = exec_step(set_cmd, m, info, t);
            let g = exec_step(get_cmd, s.1, info, now);
            &&& s.0 == enc_simple("OK".spec_bytes())
            &&& s.1 == m.insert(k, ItemModel { val: v, expire_at: Some(sat_add(t, ms)) })
            &&& now > sat_add(t, ms) ==> g.0 == enc_null_bulk()
            &&& now <= sat_add(t, ms) ==> g.0 == enc_bulk(v)
        }),
{
    classify_facts();
    let px = "PX".spec_bytes();
    let msd = dec_digits(ms as nat);
    lemma_dec_digits(ms as nat);
    let set_cmd = CommandModel { name: "SET".spec_bytes(), args: seq![k, v, px, msd] };
    assert(set_cmd.args.len() == 4);
    assert(set_cmd.args[2] == px && set_cmd.args[3] == msd);
    assert(upper_bytes(px) =~= px);
    assert(spec_parse_u64(msd) == Some(ms)) by {
        assert(is_digit(msd[0]));
        assert(msd[0] != '+' as u8);
        assert(dec_val(msd) == ms as int);
    }
    let m1 = m.insert(k, ItemModel { val: v, expire_at: Some(sat_add(t, ms)) });
    assert(m1.contains_key(k) && m1[k] == ItemModel { val: v, expire_at: Some(sat_add(t, ms)) });
}

/// Counting up: on a live record whose payload spells the integer `n`,
/// `INCR K` answers `n + 1`, rewrites the payload to spell `n + 1`, keeps
/// the record's deadline, and a `GET K` at the same reading answers the new
/// payload.  The one payload this cannot hold of is the largest `i64`,
/// whose successor no record can spell.
pub proof fn lemma_incr_monotonic(
    k: Seq<u8>,
    n: i64,
    m: Map<Seq<u8>, ItemModel>,
    info: InfoModel,
    now: u64,
)
    requires
        n < i64::MAX,
        m.contains_key(k),
        m[k].val == dec_int(n as int),
        live_at(m[k], now),
    ensures
        ({
            let incr_cmd = CommandModel { name: "INCR".spec_bytes(), args: seq![k] };
            let get_cmd = CommandModel { name: "GET".spec_bytes(), args: seq![k] };
            let s = exec_step(incr_cmd, m, info, now);
            let g = exec_step(get_cmd, s.1, info, now);
            &&& s.0 == enc_integer(n as int + 1)
            &&& s.1 == m.insert(
                k,
                ItemModel { val: dec_int(n as int + 1), expire_at: m[k].expire_at },
            )
            &&& g.0 == enc_bulk(dec_int(n as int + 1))
        }),
{
    classify_facts();
    lemma_parse_i64_roundtrip(n);
    let incr_cmd = CommandModel { name: "INCR".spec_bytes(), args: seq![k] };
    assert(incr_cmd.args[0] == k);
    assert(live_get(m, k, now) == Some(m[k]));
    assert(spec_parse_i64(m[k].val) == Some(n));
    let m1 = m.insert(k, ItemModel { val: dec_int(n as int + 1), expire_at: m[k].expire_at });
    assert(m1.contains_key(k) && m1[k].val == dec_int(n as int + 1));
    assert(live_at(m1[k], now));
}

/// Counting from nothing: on an empty keyspace, `INCR K` answers `1`,
/// installs the payload spelling `1` with no deadline, and a `GET K`
/// answers that payload.
pub proof fn lemma_incr_creation(k: Seq<u8>, info: InfoModel, now: u64)
    ensures
        ({
            let incr_cmd = CommandModel { name: "INCR".spec_bytes(), args: seq![k] };
            let get_cmd = CommandModel { name: "GET".spec_bytes(), args: seq![k] };
            let s = exec_step(incr_cmd, Map::<Seq<u8>, ItemModel>::empty(), info, now);
            let g = exec_step(get_cmd, s.1, info, now);
            &&& s.0 == enc_integer(1)
            &&& s.1 == Map::<Seq<u8>, ItemModel>::empty().insert(
                k,
                ItemModel { val: dec_int(1), expire_at: None },
            )
            &&& g.0 == enc_bulk(dec_int(1))
        }),
{
    classify_facts();
    let m = Map::<Seq<u8>, ItemModel>::empty();
    assert(!m.contains_key(k));
    let m1 = m.insert(k, ItemModel { val: dec_int(1), expire_at: None });
    assert(m1.contains_key(k) && live_at(m1[k], now));
}

/// A failed `INCR` mutates nothing: on a live record whose payload does not
/// spell an integer, `INCR K` answers the error, the keyspace is unchanged,
/// and a `GET K` still answers the old payload.
pub proof fn lemma_incr_error_preserves(
    k: Seq<u8>,
    m: Map<Seq<u8>, ItemModel>,
    info: InfoModel,
    now: u64,
)
    requires
        m.contains_key(k),
        live_at(m[k], now),
        spec_parse_i64(m[k].val) is None,
    ensures
        ({
            let incr_cmd = CommandModel { name: "INCR".spec_bytes(), args: seq![k] };
            let get_cmd = CommandModel { name: "GET".spec_bytes(), args: seq![k] };
            let s = exec_step(incr_cmd, m, info, now);
            let g = exec_step(get_cmd, m, info, now);
            &&& s.0 == enc_error("ERR value is not an integer or out of range".spec_bytes())
            &&& s.1 == m
            &&& g.0 == enc_bulk(m[k].val)
        }),
{
    classify_facts();
    assert(live_get(m, k, now) == Some(m[k]));
}

/// Stepping a session through queueable commands and then one more: every
/// queueable command answers `+QUEUED` and touches nothing; the final
/// command acts on the whole accumulated queue.
#[verifier::rlimit(60)]
proof fn lemma_queue_run(
    q: Seq<CommandModel>,
    cmds: Seq<CommandModel>,
    m: Map<Seq<u8>, ItemModel>,
    info: InfoModel,
    now: u64,
    t: CommandModel,
)
    requires
        forall|i: int| 0 <= i < cmds.len() ==> queueable(#[trigger] cmds[i]),
    ensures
        ({
            let run = session_run(SessionMode::Queue(q), cmds + seq![t], m, info, now);
            let last = session_step(SessionMode::Queue(q + cmds), t, m, info, now);
            &&& run.0 == queued_replies(cmds.len()) + last.reply
            &&& run.1 == last.mode
            &&& run.2 == last.store
        }),
    decreases cmds.len(),
{
    reveal_with_fuel(session_run, 2);
    let all = cmds + seq![t];
    if cmds.len() == 0 {
        assert(all[0] == t);
        assert(all.drop_first() =~= Seq::<CommandModel>::empty());
        assert(q + cmds =~= q);
        let last = session_step(SessionMode::Queue(q), t, m, info, now);
        assert(session_run(SessionMode::Queue(q), all, m, info, now).0 =~= last.reply + Seq::<
            u8,
        >::empty());
        assert(last.reply + Seq::<u8>::empty() =~= last.reply);
        assert(queued_replies(0) + last.reply =~= last.reply);
    } else {
        let c0 = cmds[0];
        assert(all[0] == c0);
        assert(queueable(c0));
        let s0 = session_step(SessionMode::Queue(q), c0, m, info, now);
        assert(s0.reply == enc_simple("QUEUED".spec_bytes()));
        assert(s0.mode == SessionMode::Queue(q.push(c0)));
        assert(s0.store == m);
        assert(all.drop_first() =~= cmds.drop_first() + seq![t]);
        assert(forall|i: int| 0 <= i < cmds.drop_first().len()
            ==> queueable(#[trigger] cmds.drop_first()[i]));
        lemma_queue_run(q.push(c0), cmds.drop_first(), m, info, now, t);
        assert(q.push(c0) + cmds.drop_first() =~= q + cmds);
        let last = session_step(SessionMode::Queue(q + cmds), t, m, info, now);
        let rest = session_run(
            SessionMode::Queue(q.push(c0)),
            cmds.drop_first() + seq![t],
            m,
            info,
            now,
        );
        assert(rest.0 == queued_replies((cmds.len() - 1) as nat) + last.reply);
        assert(enc_simple("QUEUED".spec_bytes()) + (queued_replies((cmds.len() - 1) as nat)
            + last.reply) =~= (enc_simple("QUEUED".spec_bytes()) + queued_replies(
            (cmds.len() - 1) as nat,
        )) + last.reply);
        assert(enc_simple("QUEUED".spec_bytes()) + queued_replies((cmds.len() - 1) as nat)
            =~= queued_replies(cmds.len()));
    }
}

/// Transaction replay: a session in direct mode stepped through `MULTI`,
/// any queueable commands, then `EXEC`, answers `+OK`, then `+QUEUED` for
/// each command, then an array header for the whole batch followed by
/// exactly the replies the commands produce one after another, each against
/// the keyspace the one before it left; the session ends back in direct
/// mode over that replayed keyspace.
pub proof fn lemma_transaction_replay(
    cmds: Seq<CommandModel>,
    m: Map<Seq<u8>, ItemModel>,
    info: InfoModel,
    now: u64,
)
    requires
        forall|i: int| 0 <= i < cmds.len() ==> queueable(#[trigger] cmds[i]),
    ensures
        ({
            let multi_cmd = CommandModel { name: "MULTI".spec_bytes(), args: Seq::empty() };
            let exec_cmd = CommandModel { name: "EXEC".spec_bytes(), args: Seq::empty() };
            let run = session_run(
                SessionMode::Exec,
                seq![multi_cmd] + cmds + seq![exec_cmd],
                m,
                info,
                now,
            );
            &&& run.0 == enc_simple("OK".spec_bytes()) + queued_replies(cmds.len()) + (
            enc_array_header(cmds.len()) + replay(cmds, m, info, now).0)
            &&& run.1 == SessionMode::Exec
            &&& run.2 == replay(cmds, m, info, now).1
        }),
{
    classify_facts();
    let multi_cmd = CommandModel { name: "MULTI".spec_bytes(), args: Seq::empty() };
    let exec_cmd = CommandModel { name: "EXEC".spec_bytes(), args: Seq::empty() };
    let all = seq![multi_cmd] + cmds + seq![exec_cmd];
    assert(all[0] == multi_cmd);
    let s0 = session_step(SessionMode::Exec, multi_cmd, m, info, now);
    assert(s0.reply == enc_simple("OK".spec_bytes()));
    assert(s0.mode == SessionMode::Queue(Seq::empty()));
    assert(s0.store == m);
    assert(all.drop_first() =~= cmds + seq![exec_cmd]);
    lemma_queue_run(Seq::empty(), cmds, m, info, now, exec_cmd);
    assert(Seq::<CommandModel>::empty() + cmds =~= cmds);
    let last = session_step(SessionMode::Queue(cmds), exec_cmd, m, info, now);
    assert(last.reply == enc_array_header(cmds.len()) + replay(cmds, m, info, now).0);
    assert(last.mode == SessionMode::Exec);
    let run = session_run(SessionMode::Exec, all, m, info, now);
    assert(run.0 =~= enc_simple("OK".spec_bytes()) + (queued_replies(cmds.len()) + last.reply));
    assert(enc_simple("OK".spec_bytes()) + (queued_replies(cmds.len()) + last.reply)
        =~= enc_simple("OK".spec_bytes()) + queued_replies(cmds.len()) + (enc_array_header(
        cmds.len(),
    ) + replay(cmds, m, info, now).0));
}

/// Discarding: a session stepped through `MULTI`, any queueable commands,
/// then `DISCARD`, answers `+OK`, `+QUEUED` for each command, then `+OK`;
/// the keyspace is untouched and the session is back in direct mode.
pub proof fn lemma_discard_drops_queue(
    cmds: Seq<CommandModel>,
    m: Map<Seq<u8>, ItemModel>,
    info: InfoModel,
    now: u64,
)
    requires
        forall|i: int| 0 <= i < cmds.len() ==> queueable(#[trigger] cmds[i]),
    ensures
        ({
            let multi_cmd = CommandModel { name: "MULTI".spec_bytes(), args: Seq::empty() };
            let discard_cmd = CommandModel { name: "DISCARD".spec_bytes(), args: Seq::empty() };
            let run = session_run(
                SessionMode::Exec,
                seq![multi_cmd] + cmds + seq![discard_cmd],
                m,
                info,
                now,
            );
            &&& run.0 == enc_simple("OK".spec_bytes()) + queued_replies(cmds.len()) + enc_simple(
                "OK".spec_bytes(),
            )
            &&& run.1 == SessionMode::Exec
            &&& run.2 == m
        }),
{
    classify_facts();
    let multi_cmd = CommandModel { name: "MULTI".spec_bytes(), args: Seq::empty() };
    let discard_cmd = CommandModel { name: "DISCARD".spec_bytes(), args: Seq::empty() };
    let all = seq![multi_cmd] + cmds + seq![discard_cmd];
    assert(all[0] == multi_cmd);
    let s0 = session_step(SessionMode::Exec, multi_cmd, m, info, now);
    assert(s0.mode == SessionMode::Queue(Seq::empty()));
    assert(all.drop_first() =~= cmds + seq![discard_cmd]);
    lemma_queue_run(Seq::empty(), cmds, m, info, now, discard_cmd);
    assert(Seq::<CommandModel>::empty() + cmds =~= cmds);
    let last = session_step(SessionMode::Queue(cmds), discard_cmd, m, info, now);
    assert(last.reply == enc_simple("OK".spec_bytes()));
    let run = session_run(SessionMode::Exec, all, m, info, now);
    assert(run.0 =~= enc_simple("OK".spec_bytes()) + (queued_replies(cmds.len()) + last.reply));
    assert(enc_simple("OK".spec_bytes()) + (queued_replies(cmds.len()) + last.reply)
        =~= enc_simple("OK".spec_bytes()) + queued_replies(cmds.len()) + enc_simple(
        "OK".spec_bytes(),
    ));
}

} // verus!
