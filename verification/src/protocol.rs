//! The connection pipeline: commands, the per-connection reply writer, and
//! the session state machine with MULTI/EXEC transaction queueing.
//!
//! The whole behaviour of a session turn is written down once, as the
//! specification function [`session_step`]: given the session's mode, the
//! decoded command, the keyspace, the server info and the clock, it names
//! the reply bytes, the next mode, and the keyspace left behind.
//! [`Response::process_command`] is proved to implement it.

use vstd::prelude::*;
use vstd::string::StringSliceAdditionalSpecFns;

use crate::bytes::{append_bytes, bytes_eq, copy_bytes, to_upper, to_lower, upper_bytes, lower_bytes};
use crate::num::{dec_digits, dec_int, i64_to_dec, parse_i64, parse_u64, spec_parse_i64, spec_parse_u64, u64_to_dec};
use crate::kv_store::{live_get, sat_add, ItemModel, KvAction, KvItem, KvStore};
use crate::resp::{enc_array_header, enc_bulk, enc_error, enc_integer, enc_null_bulk, enc_simple};

verus! {

/// One decoded request: an uppercase ASCII command name and its arguments.
pub struct Command {
    pub name: Vec<u8>,
    pub args: Vec<Vec<u8>>,
}

/// The mathematical content of a [`Command`].
#[verifier::ext_equal]
pub struct CommandModel {
    pub name: Seq<u8>,
    pub args: Seq<Seq<u8>>,
}

impl View for Command {
    type V = CommandModel;

    open spec fn view(&self) -> CommandModel {
        CommandModel {
            name: self.name@,
            args: Seq::new(self.args@.len(), |i: int| self.args@[i]@),
        }
    }
}

impl DeepView for Command {
    type V = CommandModel;

    open spec fn deep_view(&self) -> CommandModel {
        self.view()
    }
}

/// The command a frame's elements stand for: the first element uppercased
/// is the name, the rest are the arguments.
pub open spec fn spec_command_of(elems: Seq<Seq<u8>>) -> CommandModel
    recommends
        elems.len() >= 1,
{
    CommandModel { name: upper_bytes(elems[0]), args: elems.drop_first() }
}

impl Command {
    /// A command from its parts.
    pub fn new(name: Vec<u8>, args: Vec<Vec<u8>>) -> (r: Command)
        ensures
            r@.name == name@,
            r@.args.len() == args@.len(),
            forall|i: int| 0 <= i < args@.len() ==> r@.args[i] == args@[i]@,
    {
        Command { name, args }
    }

    /// The command of a decoded frame.
    pub fn from_elems(elems: &Vec<Vec<u8>>) -> (r: Command)
        requires
            elems@.len() >= 1,
        ensures
            r@ == spec_command_of(elems.deep_view()),
    {
        let name = to_upper(&elems[0]);
        let mut args: Vec<Vec<u8>> = Vec::new();
        let mut i: usize = 1;
        while i < elems.len()
            invariant
                1 <= i <= elems@.len(),
                args@.len() == i - 1,
                forall|j: int| 0 <= j < i - 1 ==> #[trigger] args@[j]@ == elems@[j + 1]@,
            decreases elems@.len() - i,
        {
            args.push(copy_bytes(&elems[i]));
            i += 1;
        }
        let r = Command { name, args };
        proof {
            assert(elems.deep_view()[0] =~= elems@[0]@);
            assert(r@.name =~= upper_bytes(elems.deep_view()[0]));
            assert(r@.args =~= elems.deep_view().drop_first()) by {
                assert(forall|j: int| 0 <= j < elems@.len()
                    ==> #[trigger] elems.deep_view()[j] =~= elems@[j]@);
            }
            assert(r@ =~= spec_command_of(elems.deep_view()));
        }
        r
    }

    /// A copy of the command.
    pub fn duplicate(&self) -> (r: Command)
        ensures
            r@ == self@,
    {
        let name = copy_bytes(&self.name);
        let mut args: Vec<Vec<u8>> = Vec::new();
        let mut i: usize = 0;
        while i < self.args.len()
            invariant
                i <= self.args@.len(),
                args@.len() == i,
                forall|j: int| 0 <= j < i ==> #[trigger] args@[j]@ == self.args@[j]@,
            decreases self.args@.len() - i,
        {
            args.push(copy_bytes(&self.args[i]));
            i += 1;
        }
        let r = Command { name, args };
        proof {
            assert(r@.args =~= self@.args);
            assert(r@ =~= self@);
        }
        r
    }
}

/// The commands a session understands; anything else is `Unknown`.
pub enum CmdKind {
    Ping,
    CommandList,
    Echo,
    SetKey,
    Get,
    Incr,
    Info,
    Multi,
    Exec,
    Discard,
    Unknown,
}

/// Which command a name denotes.
pub open spec fn spec_classify(name: Seq<u8>) -> CmdKind {
    if name == "PING".spec_bytes() {
        CmdKind::Ping
    } else if name == "COMMAND".spec_bytes() {
        CmdKind::CommandList
    } else if name == "ECHO".spec_bytes() {
        CmdKind::Echo
    } else if name == "SET".spec_bytes() {
        CmdKind::SetKey
    } else if name == "GET".spec_bytes() {
        CmdKind::Get
    } else if name == "INCR".spec_bytes() {
        CmdKind::Incr
    } else if name == "INFO".spec_bytes() {
        CmdKind::Info
    } else if name == "MULTI".spec_bytes() {
        CmdKind::Multi
    } else if name == "EXEC".spec_bytes() {
        CmdKind::Exec
    } else if name == "DISCARD".spec_bytes() {
        CmdKind::Discard
    } else {
        CmdKind::Unknown
    }
}

/// Classifies a command name.
fn classify(name: &Vec<u8>) -> (k: CmdKind)
    ensures
        k == spec_classify(name@),
{
    if bytes_eq(name, &"PING".as_bytes_vec()) {
        CmdKind::Ping
    } else if bytes_eq(name, &"COMMAND".as_bytes_vec()) {
        CmdKind::CommandList
    } else if bytes_eq(name, &"ECHO".as_bytes_vec()) {
        CmdKind::Echo
    } else if bytes_eq(name, &"SET".as_bytes_vec()) {
        CmdKind::SetKey
    } else if bytes_eq(name, &"GET".as_bytes_vec()) {
        CmdKind::Get
    } else if bytes_eq(name, &"INCR".as_bytes_vec()) {
        CmdKind::Incr
    } else if bytes_eq(name, &"INFO".as_bytes_vec()) {
        CmdKind::Info
    } else if bytes_eq(name, &"MULTI".as_bytes_vec()) {
        CmdKind::Multi
    } else if bytes_eq(name, &"EXEC".as_bytes_vec()) {
        CmdKind::Exec
    } else if bytes_eq(name, &"DISCARD".as_bytes_vec()) {
        CmdKind::Discard
    } else {
        CmdKind::Unknown
    }
}

/// Whether the server serves its own keyspace or follows another's.
#[derive(Clone, Copy)]
pub enum ServerRole {
    Master,
    Slave,
}

/// The wire spelling of a role.
pub open spec fn role_bytes(r: ServerRole) -> Seq<u8> {
    match r {
        ServerRole::Master => "master".spec_bytes(),
        ServerRole::Slave => "slave".spec_bytes(),
    }
}

impl ServerRole {
    /// The role's wire spelling.
    pub fn name(&self) -> (r: Vec<u8>)
        ensures
            r@ == role_bytes(*self),
    {
        match self {
            ServerRole::Master => "master".as_bytes_vec(),
            ServerRole::Slave => "slave".as_bytes_vec(),
        }
    }
}

/// A lowercase letter or a digit, as the server id is spelt.
pub open spec fn is_id_byte(b: u8) -> bool {
    ('a' as u8 <= b <= 'z' as u8) || ('0' as u8 <= b <= '9' as u8)
}

/// The read-only description a server hands to `INFO`.
pub struct ServerInfo {
    id: Vec<u8>,
    pub port: u16,
    role: ServerRole,
    replication_offset: u64,
}

/// The mathematical content of a [`ServerInfo`].
#[verifier::ext_equal]
pub struct InfoModel {
    pub id: Seq<u8>,
    pub port: u16,
    pub role: ServerRole,
    pub replication_offset: u64,
}

impl View for ServerInfo {
    type V = InfoModel;

    closed spec fn view(&self) -> InfoModel {
        InfoModel {
            id: self.id@,
            port: self.port,
            role: self.role,
            replication_offset: self.replication_offset,
        }
    }
}

/// A well-formed server id: forty lowercase alphanumeric bytes.
pub open spec fn wf_server_id(id: Seq<u8>) -> bool {
    id.len() == 40 && forall|i: int| 0 <= i < id.len() ==> is_id_byte(#[trigger] id[i])
}

impl ServerInfo {
    /// Describes a server; the replication offset starts at zero.
    pub fn new(id: Vec<u8>, port: u16, role: ServerRole) -> (r: ServerInfo)
        requires
            wf_server_id(id@),
        ensures
            r@ == (InfoModel { id: id@, port, role, replication_offset: 0u64 }),
    {
        ServerInfo { id, port, role, replication_offset: 0 }
    }
}

/// The body of the `INFO replication` reply.
pub open spec fn info_replication_body(info: InfoModel) -> Seq<u8> {
    "# Replication\r\nrole:".spec_bytes() + role_bytes(info.role)
        + "\r\nmaster_repl_offset:".spec_bytes() + dec_digits(info.replication_offset as nat)
        + "\r\nmaster_replid:".spec_bytes() + info.id
}

impl ServerInfo {
    /// Renders the body of the `INFO replication` reply.
    pub fn replication_body(&self) -> (r: Vec<u8>)
        ensures
            r@ == info_replication_body(self@),
    {
        let mut r = "# Replication\r\nrole:".as_bytes_vec();
        let role = self.role.name();
        append_bytes(&mut r, &role);
        let mid = "\r\nmaster_repl_offset:".as_bytes_vec();
        append_bytes(&mut r, &mid);
        let off = u64_to_dec(self.replication_offset);
        append_bytes(&mut r, &off);
        let tail = "\r\nmaster_replid:".as_bytes_vec();
        append_bytes(&mut r, &tail);
        append_bytes(&mut r, &self.id);
        r
    }
}

/// What a session is doing: executing commands at once, or queueing them
/// for a transaction.
#[verifier::ext_equal]
pub enum SessionMode {
    Exec,
    Queue(Seq<CommandModel>),
}

enum ResponseState {
    Exec,
    Queue,
}

/// The per-connection reply writer and transaction state machine.  Encoded
/// replies gather in an internal buffer; the caller drains it with
/// [`Response::take_output`] at each reply boundary and writes the bytes to
/// the connection.
pub struct Response {
    buffer: Vec<u8>,
    state: ResponseState,
    commands: Vec<Command>,
}

impl Response {
    /// The bytes encoded so far and not yet taken.
    pub closed spec fn buf(&self) -> Seq<u8> {
        self.buffer@
    }

    /// The session's mode, with the queued commands when in a transaction.
    pub closed spec fn mode(&self) -> SessionMode {
        match self.state {
            ResponseState::Exec => SessionMode::Exec,
            ResponseState::Queue => SessionMode::Queue(
                Seq::new(self.commands@.len(), |i: int| self.commands@[i]@),
            ),
        }
    }

    /// Outside a transaction the queue is empty.
    pub closed spec fn wf(&self) -> bool {
        self.state is Exec ==> self.commands@.len() == 0
    }

    /// A fresh session: direct execution, nothing buffered.
    pub fn new() -> (r: Response)
        ensures
            r.wf(),
            r.buf() == Seq::<u8>::empty(),
            r.mode() == SessionMode::Exec,
    {
        Response { buffer: Vec::new(), state: ResponseState::Exec, commands: Vec::new() }
    }

    /// Encodes `+content\r\n`.
    pub fn push_simple_string(&mut self, content: &str)
        ensures
            final(self).buf() == old(self).buf() + enc_simple(content.spec_bytes()),
            final(self).mode() == old(self).mode(),
            final(self).wf() == old(self).wf(),
    {
        self.buffer.push(43);
        let b = content.as_bytes_vec();
        append_bytes(&mut self.buffer, &b);
        self.buffer.push(13);
        self.buffer.push(10);
        proof {
            assert(self.buffer@ =~= old(self).buf() + enc_simple(content.spec_bytes()));
        }
    }

    /// Encodes `-content\r\n`.
    pub fn push_simple_error(&mut self, content: &str)
        ensures
            final(self).buf() == old(self).buf() + enc_error(content.spec_bytes()),
            final(self).mode() == old(self).mode(),
            final(self).wf() == old(self).wf(),
    {
        self.buffer.push(45);
        let b = content.as_bytes_vec();
        append_bytes(&mut self.buffer, &b);
        self.buffer.push(13);
        self.buffer.push(10);
        proof {
            assert(self.buffer@ =~= old(self).buf() + enc_error(content.spec_bytes()));
        }
    }

    /// Encodes `$len\r\ncontent\r\n`.
    pub fn push_bulk_string(&mut self, content: &Vec<u8>)
        ensures
            final(self).buf() == old(self).buf() + enc_bulk(content@),
            final(self).mode() == old(self).mode(),
            final(self).wf() == old(self).wf(),
    {
        self.buffer.push(36);
        let len = u64_to_dec(content.len() as u64);
        append_bytes(&mut self.buffer, &len);
        self.buffer.push(13);
        self.buffer.push(10);
        append_bytes(&mut self.buffer, content);
        self.buffer.push(13);
        self.buffer.push(10);
        proof {
            assert(self.buffer@ =~= old(self).buf() + enc_bulk(content@));
        }
    }

    /// Encodes `$-1\r\n`.
    pub fn push_null_bulk_string(&mut self)
        ensures
            final(self).buf() == old(self).buf() + enc_null_bulk(),
            final(self).mode() == old(self).mode(),
            final(self).wf() == old(self).wf(),
    {
        self.buffer.push(36);
        self.buffer.push(45);
        self.buffer.push(49);
        self.buffer.push(13);
        self.buffer.push(10);
        proof {
            assert(self.buffer@ =~= old(self).buf() + enc_null_bulk());
        }
    }

    /// Encodes `:num\r\n`.
    pub fn push_integer(&mut self, num: i64)
        ensures
            final(self).buf() == old(self).buf() + enc_integer(num as int),
            final(self).mode() == old(self).mode(),
            final(self).wf() == old(self).wf(),
    {
        self.buffer.push(58);
        let d = i64_to_dec(num);
        append_bytes(&mut self.buffer, &d);
        self.buffer.push(13);
        self.buffer.push(10);
        proof {
            assert(self.buffer@ =~= old(self).buf() + enc_integer(num as int));
        }
    }

    /// Encodes `*cnt\r\n`.
    pub fn push_array_header(&mut self, cnt: usize)
        ensures
            final(self).buf() == old(self).buf() + enc_array_header(cnt as nat),
            final(self).mode() == old(self).mode(),
            final(self).wf() == old(self).wf(),
    {
        self.buffer.push(42);
        let d = u64_to_dec(cnt as u64);
        append_bytes(&mut self.buffer, &d);
        self.buffer.push(13);
        self.buffer.push(10);
        proof {
            assert(self.buffer@ =~= old(self).buf() + enc_array_header(cnt as nat));
        }
    }

    /// Hands over everything buffered, leaving the buffer empty.  The
    /// caller writes these bytes to the connection: one reply boundary.
    pub fn take_output(&mut self) -> (out: Vec<u8>)
        ensures
            out@ == old(self).buf(),
            final(self).buf() == Seq::<u8>::empty(),
            final(self).mode() == old(self).mode(),
            final(self).wf() == old(self).wf(),
    {
        let out = copy_bytes(&self.buffer);
        self.buffer.clear();
        out
    }
}

/// The reply and keyspace of a `SET` command.
pub open spec fn spec_set(
    args: Seq<Seq<u8>>,
    m: Map<Seq<u8>, ItemModel>,
    now: u64,
) -> (Seq<u8>, Map<Seq<u8>, ItemModel>) {
    if args.len() < 2 {
        (enc_error("ERR wrong number of arguments for 'set' command".spec_bytes()), m)
    } else if args.len() == 2 {
        (enc_simple("OK".spec_bytes()), m.insert(
            args[0],
            ItemModel { val: args[1], expire_at: None },
        ))
    } else if upper_bytes(args[2]) == "PX".spec_bytes() {
        if args.len() >= 4 && spec_parse_u64(args[3]) is Some {
            (enc_simple("OK".spec_bytes()), m.insert(
                args[0],
                ItemModel {
                    val: args[1],
                    expire_at: Some(sat_add(now, spec_parse_u64(args[3]).unwrap())),
                },
            ))
        } else {
            (enc_error("ERR invalid expire time".spec_bytes()), m)
        }
    } else {
        (enc_error("ERR unknown option for 'set' command".spec_bytes()), m)
    }
}

/// The reply of a `GET` command; the keyspace is read, never changed.
pub open spec fn spec_get(
    args: Seq<Seq<u8>>,
    m: Map<Seq<u8>, ItemModel>,
    now: u64,
) -> Seq<u8> {
    if args.len() < 1 {
        enc_error("ERR wrong number of arguments for 'get' command".spec_bytes())
    } else {
        match live_get(m, args[0], now) {
            Some(it) => enc_bulk(it.val),
            None => enc_null_bulk(),
        }
    }
}

/// The reply and keyspace of an `INCR` command.  A missing or expired
/// record becomes `1`; a record that reads as an `i64` below the maximum is
/// replaced in place, keeping its deadline; anything else is an error and
/// leaves the keyspace alone.
pub open spec fn spec_incr(
    args: Seq<Seq<u8>>,
    m: Map<Seq<u8>, ItemModel>,
    now: u64,
) -> (Seq<u8>, Map<Seq<u8>, ItemModel>) {
    if args.len() < 1 {
        (enc_error("ERR wrong number of arguments for 'incr' command".spec_bytes()), m)
    } else {
        match live_get(m, args[0], now) {
            None => (enc_integer(1), m.insert(
                args[0],
                ItemModel { val: dec_int(1), expire_at: None },
            )),
            Some(it) => match spec_parse_i64(it.val) {
                Some(n) => if n < i64::MAX {
                    (enc_integer(n + 1), m.insert(
                        args[0],
                        ItemModel { val: dec_int(n + 1), expire_at: it.expire_at },
                    ))
                } else {
                    (enc_error("ERR value is not an integer or out of range".spec_bytes()), m)
                },
                None => (enc_error("ERR value is not an integer or out of range".spec_bytes()), m),
            },
        }
    }
}

/// The reply of an `INFO` command.
pub open spec fn spec_info(args: Seq<Seq<u8>>, info: InfoModel) -> Seq<u8> {
    if args.len() < 1 {
        enc_error("ERR wrong number of arguments for 'info' command".spec_bytes())
    } else if lower_bytes(args[0]) == "replication".spec_bytes() {
        enc_bulk(info_replication_body(info))
    } else {
        enc_error("ERR unsupported INFO section".spec_bytes())
    }
}

/// Direct execution of one command: the reply written and the keyspace left
/// behind.  This is the meaning of every command outside a transaction;
/// `MULTI`, `EXEC` and `DISCARD` reach it only out of place, where they
/// answer without touching the keyspace.
pub open spec fn exec_step(
    cmd: CommandModel,
    m: Map<Seq<u8>, ItemModel>,
    info: InfoModel,
    now: u64,
) -> (Seq<u8>, Map<Seq<u8>, ItemModel>) {
    match spec_classify(cmd.name) {
        CmdKind::Ping => (enc_simple("PONG".spec_bytes()), m),
        CmdKind::CommandList => (enc_array_header(0), m),
        CmdKind::Echo => if cmd.args.len() < 1 {
            (enc_error("ERR wrong number of arguments for 'echo' command".spec_bytes()), m)
        } else {
            (enc_bulk(cmd.args[0]), m)
        },
        CmdKind::SetKey => spec_set(cmd.args, m, now),
        CmdKind::Get => (spec_get(cmd.args, m, now), m),
        CmdKind::Incr => spec_incr(cmd.args, m, now),
        CmdKind::Info => (spec_info(cmd.args, info), m),
        CmdKind::Multi => (enc_simple("OK".spec_bytes()), m),
        CmdKind::Exec => (enc_error("ERR EXEC without MULTI".spec_bytes()), m),
        CmdKind::Discard => (enc_error("ERR DISCARD without MULTI".spec_bytes()), m),
        CmdKind::Unknown => (enc_error("ERR unknown command".spec_bytes()), m),
    }
}

/// Replays queued commands in order, each against the keyspace the one
/// before it left, concatenating their replies.
pub open spec fn replay(
    q: Seq<CommandModel>,
    m: Map<Seq<u8>, ItemModel>,
    info: InfoModel,
    now: u64,
) -> (Seq<u8>, Map<Seq<u8>, ItemModel>)
    decreases q.len(),
{
    if q.len() == 0 {
        (Seq::empty(), m)
    } else {
        let first = exec_step(q[0], m, info, now);
        let rest = replay(q.drop_first(), first.1, info, now);
        (first.0 + rest.0, rest.1)
    }
}

/// What one session turn does: the reply bytes appended, the mode moved to,
/// and the keyspace left behind.
#[verifier::ext_equal]
pub struct SessionStep {
    pub reply: Seq<u8>,
    pub mode: SessionMode,
    pub store: Map<Seq<u8>, ItemModel>,
}

/// The session state machine.  In `Exec` mode, `MULTI` opens an empty queue
/// and everything else executes at once.  In `Queue` mode, `EXEC` replays
/// the queue behind an array header, `DISCARD` drops it, a nested `MULTI`
/// is refused with the queue intact, and every other command is queued with
/// `+QUEUED`; the keyspace is untouched by everything but `EXEC`.
pub open spec fn session_step(
    mode: SessionMode,
    cmd: CommandModel,
    m: Map<Seq<u8>, ItemModel>,
    info: InfoModel,
    now: u64,
) -> SessionStep {
    match mode {
        SessionMode::Exec => match spec_classify(cmd.name) {
            CmdKind::Multi => SessionStep {
                reply: enc_simple("OK".spec_bytes()),
                mode: SessionMode::Queue(Seq::empty()),
                store: m,
            },
            _ => {
                let r = exec_step(cmd, m, info, now);
                SessionStep { reply: r.0, mode: SessionMode::Exec, store: r.1 }
            },
        },
        SessionMode::Queue(q) => match spec_classify(cmd.name) {
            CmdKind::Exec => {
                let r = replay(q, m, info, now);
                SessionStep {
                    reply: enc_array_header(q.len()) + r.0,
                    mode: SessionMode::Exec,
                    store: r.1,
                }
            },
            CmdKind::Discard => SessionStep {
                reply: enc_simple("OK".spec_bytes()),
                mode: SessionMode::Exec,
                store: m,
            },
            CmdKind::Multi => SessionStep {
                reply: enc_error("ERR MULTI calls can not be nested".spec_bytes()),
                mode: SessionMode::Queue(q),
                store: m,
            },
            _ => SessionStep {
                reply: enc_simple("QUEUED".spec_bytes()),
                mode: SessionMode::Queue(q.push(cmd)),
                store: m,
            },
        },
    }
}

impl Response {
    /// Executes one command at once against the keyspace, appending its
    /// reply: the executable form of [`exec_step`].
    #[verifier::rlimit(60)]
    pub fn exec_command(&mut self, command: &Command, store: &mut KvStore, info: &ServerInfo, now: u64)
        requires
            old(store).wf(),
        ensures
            final(store).wf(),
            final(self).buf() == old(self).buf() + exec_step(command@, old(store)@, info@, now).0,
            final(store)@ == exec_step(command@, old(store)@, info@, now).1,
            final(self).mode() == old(self).mode(),
            final(self).wf() == old(self).wf(),
    {
        match classify(&command.name) {
            CmdKind::Ping => {
                self.push_simple_string("PONG");
            },
            CmdKind::CommandList => {
                self.push_array_header(0);
            },
            CmdKind::Echo => {
                if command.args.len() < 1 {
                    self.push_simple_error("ERR wrong number of arguments for 'echo' command");
                } else {
                    self.push_bulk_string(&command.args[0]);
                }
            },
            CmdKind::SetKey => {
                if command.args.len() < 2 {
                    self.push_simple_error("ERR wrong number of arguments for 'set' command");
                } else if command.args.len() == 2 {
                    let key = copy_bytes(&command.args[0]);
                    let val = copy_bytes(&command.args[1]);
                    let item = KvItem::new(val, now, None);
                    proof {
                        assert(item@ =~= ItemModel { val: command@.args[1], expire_at: None });
                    }
                    store.insert(key, item);
                    self.push_simple_string("OK");
                } else {
                    let opt = to_upper(&command.args[2]);
                    if bytes_eq(&opt, &"PX".as_bytes_vec()) {
                        let expire = if command.args.len() >= 4 {
                            parse_u64(&command.args[3])
                        } else {
                            None
                        };
                        match expire {
                            Some(ms) => {
                                let key = copy_bytes(&command.args[0]);
                                let val = copy_bytes(&command.args[1]);
                                let item = KvItem::new(val, now, Some(ms));
                                proof {
                                    assert(item@ =~= ItemModel {
                                        val: command@.args[1],
                                        expire_at: Some(sat_add(now, ms)),
                                    });
                                }
                                store.insert(key, item);
                                self.push_simple_string("OK");
                            },
                            None => {
                                self.push_simple_error("ERR invalid expire time");
                            },
                        }
                    } else {
                        self.push_simple_error("ERR unknown option for 'set' command");
                    }
                }
            },
            CmdKind::Get => {
                if command.args.len() < 1 {
                    self.push_simple_error("ERR wrong number of arguments for 'get' command");
                } else {
                    match store.get_clone(&command.args[0], now) {
                        Some(item) => {
                            self.push_bulk_string(&item.val);
                        },
                        None => {
                            self.push_null_bulk_string();
                        },
                    }
                }
            },
            CmdKind::Incr => {
                if command.args.len() < 1 {
                    self.push_simple_error("ERR wrong number of arguments for 'incr' command");
                } else {
                    let key = &command.args[0];
                    match store.get_clone(key, now) {
                        None => {
                            let one = u64_to_dec(1);
                            proof {
                                assert(dec_int(1) == dec_digits(1nat));
                            }
                            let item = KvItem::new(one, now, None);
                            proof {
                                assert(item@ =~= ItemModel { val: dec_int(1), expire_at: None });
                            }
                            store.do_action(key, now, KvAction::Write(item));
                            self.push_integer(1);
                        },
                        Some(item) => {
                            match parse_i64(&item.val) {
                                Some(n) => {
                                    if n < i64::MAX {
                                        let next = n + 1;
                                        let digits = i64_to_dec(next);
                                        store.do_action(
                                            key,
                                            now,
                                            KvAction::ReplacePayload(digits),
                                        );
                                        self.push_integer(next);
                                    } else {
                                        self.push_simple_error(
                                            "ERR value is not an integer or out of range",
                                        );
                                    }
                                },
                                None => {
                                    self.push_simple_error(
                                        "ERR value is not an integer or out of range",
                                    );
                                },
                            }
                        },
                    }
                }
            },
            CmdKind::Info => {
                if command.args.len() < 1 {
                    self.push_simple_error("ERR wrong number of arguments for 'info' command");
                } else {
                    let section = to_lower(&command.args[0]);
                    if bytes_eq(&section, &"replication".as_bytes_vec()) {
                        let body = info.replication_body();
                        self.push_bulk_string(&body);
                    } else {
                        self.push_simple_error("ERR unsupported INFO section");
                    }
                }
            },
            CmdKind::Multi => {
                self.push_simple_string("OK");
            },
            CmdKind::Exec => {
                self.push_simple_error("ERR EXEC without MULTI");
            },
            CmdKind::Discard => {
                self.push_simple_error("ERR DISCARD without MULTI");
            },
            CmdKind::Unknown => {
                self.push_simple_error("ERR unknown command");
            },
        }
    }

    /// One session turn: dispatches the command through the state machine,
    /// appending everything it replies: the executable form of
    /// [`session_step`].
    pub fn process_command(&mut self, command: &Command, store: &mut KvStore, info: &ServerInfo, now: u64)
        requires
            old(self).wf(),
            old(store).wf(),
        ensures
            final(self).wf(),
            final(store).wf(),
            ({
                let step = session_step(old(self).mode(), command@, old(store)@, info@, now);
                &&& final(self).buf() == old(self).buf() + step.reply
                &&& final(self).mode() == step.mode
                &&& final(store)@ == step.store
            }),
    {
        let ghost m0 = store@;
        match self.state {
            ResponseState::Exec => {
                match classify(&command.name) {
                    CmdKind::Multi => {
                        self.state = ResponseState::Queue;
                        self.push_simple_string("OK");
                        proof {
                            assert(self.mode() =~= SessionMode::Queue(Seq::<CommandModel>::empty()));
                        }
                    },
                    _ => {
                        self.exec_command(command, store, info, now);
                    },
                }
            },
            ResponseState::Queue => {
                match classify(&command.name) {
                    CmdKind::Exec => {
                        let ghost q = old(self).mode()->Queue_0;
                        let k = self.commands.len();
                        self.push_array_header(k);
                        let ghost hdr_buf = self.buf();
                        let mut cmds: Vec<Command> = Vec::new();
                        core::mem::swap(&mut cmds, &mut self.commands);
                        self.state = ResponseState::Exec;
                        proof {
                            assert(q =~= Seq::new(cmds@.len(), |i: int| cmds@[i]@));
                        }
                        let ghost mut done: Seq<u8> = Seq::empty();
                        proof {
                            assert(q.skip(0) =~= q);
                            assert(Seq::<u8>::empty() + replay(q, m0, info@, now).0
                                =~= replay(q, m0, info@, now).0);
                        }
                        let mut i: usize = 0;
                        while i < cmds.len()
                            invariant
                                i <= cmds@.len(),
                                store.wf(),
                                self.wf(),
                                self.mode() == SessionMode::Exec,
                                q.len() == cmds@.len(),
                                forall|j: int| 0 <= j < cmds@.len() ==> q[j] == #[trigger] cmds@[j]@,
                                self.buf() == hdr_buf + done,
                                replay(q, m0, info@, now).0 == done + replay(
                                    q.skip(i as int),
                                    store@,
                                    info@,
                                    now,
                                ).0,
                                replay(q, m0, info@, now).1 == replay(
                                    q.skip(i as int),
                                    store@,
                                    info@,
                                    now,
                                ).1,
                            decreases cmds@.len() - i,
                        {
                            let ghost m_before = store@;
                            let ghost rem = replay(q.skip(i as int), m_before, info@, now);
                            self.exec_command(&cmds[i], store, info, now);
                            proof {
                                let r_i = exec_step(q[i as int], m_before, info@, now);
                                assert(q.skip(i as int)[0] == q[i as int]);
                                assert(q.skip(i as int).drop_first() =~= q.skip(i as int + 1));
                                assert(rem.0 == r_i.0 + replay(q.skip(i as int + 1), r_i.1, info@, now).0);
                                assert(done + rem.0 =~= (done + r_i.0) + replay(
                                    q.skip(i as int + 1),
                                    r_i.1,
                                    info@,
                                    now,
                                ).0);
                                done = done + r_i.0;
                                assert(self.buf() =~= hdr_buf + done);
                            }
                            i += 1;
                        }
                        proof {
                            assert(q.skip(q.len() as int) =~= Seq::<CommandModel>::empty());
                            assert(done + Seq::<u8>::empty() =~= done);
                            assert(self.buf() =~= old(self).buf() + (enc_array_header(q.len())
                                + replay(q, m0, info@, now).0));
                        }
                    },
                    CmdKind::Discard => {
                        self.commands.clear();
                        self.state = ResponseState::Exec;
                        self.push_simple_string("OK");
                    },
                    CmdKind::Multi => {
                        self.push_simple_error("ERR MULTI calls can not be nested");
                    },
                    _ => {
                        let ghost q = old(self).mode()->Queue_0;
                        self.commands.push(command.duplicate());
                        self.push_simple_string("QUEUED");
                        proof {
                            assert(self.mode()->Queue_0 =~= q.push(command@));
                            assert(self.mode() =~= SessionMode::Queue(q.push(command@)));
                        }
                    },
                }
            },
        }
    }
}

/// A command that a transaction may hold: anything but the transaction
/// control commands themselves.
pub open spec fn queueable(c: CommandModel) -> bool {
    match spec_classify(c.name) {
        CmdKind::Multi => false,
        CmdKind::Exec => false,
        CmdKind::Discard => false,
        _ => true,
    }
}

/// The reply to a run of queued commands: `+QUEUED\r\n`, `n` times.
pub open spec fn queued_replies(n: nat) -> Seq<u8>
    decreases n,
{
    if n == 0 {
        Seq::empty()
    } else {
        enc_simple("QUEUED".spec_bytes()) + queued_replies((n - 1) as nat)
    }
}

/// A whole conversation: the session stepped through `cmds` in order,
/// with every reply concatenated.
pub open spec fn session_run(
    mode: SessionMode,
    cmds: Seq<CommandModel>,
    m: Map<Seq<u8>, ItemModel>,
    info: InfoModel,
    now: u64,
) -> (Seq<u8>, SessionMode, Map<Seq<u8>, ItemModel>)
    decreases cmds.len(),
{
    if cmds.len() == 0 {
        (Seq::empty(), mode, m)
    } else {
        let s = session_step(mode, cmds[0], m, info, now);
        let rest = session_run(s.mode, cmds.drop_first(), s.store, info, now);
        (s.reply + rest.0, rest.1, rest.2)
    }
}

} // verus!
