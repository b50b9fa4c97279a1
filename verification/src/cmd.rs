use vstd::prelude::*;
use vstd::string::*;
use vstd::utf8::{decode_utf8, encode_utf8, valid_utf8};
use crate::cache::holds_key;
use crate::db::{deadline_fits, Db, DbModel, NANOS_PER_SEC};
use crate::db_laws::{lemma_get_after_expire, lemma_get_after_set};
use crate::codec_laws::{encodable, lemma_ascii_valid_utf8, lemma_decode_encode};
use crate::num::{decimal_text, is_digit, lemma_decimal_text, lemma_parse_decimal_text};
use crate::recovery::{lemma_decimal_text_short, lemma_word_del, lemma_word_expire, lemma_word_set};
use vstd::utf8::{decode_utf8_encode_utf8, encode_utf8_decode_utf8, encode_utf8_valid_utf8};
use crate::buffer::{buffer_bytes, buffer_contents, buffer_from, buffer_len};
use crate::codec::{decode_spec, encode_spec, RespCodec};
use crate::db::{
    bulk_word, bulk_word_del, bulk_word_expire, bulk_word_set, expire_record, expire_record_frame, make_record, set_record,
    set_record_frame,
};
use crate::frame::{Frame, FrameModel};
use crate::num::{parse_u64, parse_u64_text};
use crate::text::{ascii_upper, is_ascii_text, same_text, str_from_utf8, text_bytes, to_uppercase, uppercase};

verus! {

/// The commands the server carries out.
pub enum Command {
    Get(String),
    SetValue(String, Vec<u8>),
    Del(Vec<String>),
    Expire(String, u64),
    Ping(Option<String>),
    Unknown(String),
}

/// The mathematical value of a command.
pub enum CommandModel {
    Get(Seq<char>),
    SetValue(Seq<char>, Seq<u8>),
    Del(Seq<Seq<char>>),
    Expire(Seq<char>, nat),
    Ping(Option<Seq<char>>),
    Unknown(Seq<char>),
}

impl View for Command {
    type V = CommandModel;

    open spec fn view(&self) -> CommandModel {
        match self {
            Command::Get(k) => CommandModel::Get(k@),
            Command::SetValue(k, v) => CommandModel::SetValue(k@, v@),
            Command::Del(ks) => CommandModel::Del(ks@.map_values(|k: String| k@)),
            Command::Expire(k, s) => CommandModel::Expire(k@, *s as nat),
            Command::Ping(m) => CommandModel::Ping(
                match m {
                    Some(s) => Some(s@),
                    None => None,
                },
            ),
            Command::Unknown(n) => CommandModel::Unknown(n@),
        }
    }
}

/// Why a frame is no command.
#[derive(Debug, Clone, Copy, PartialEq, Eq, Structural)]
pub enum CommandError {
    /// The frame is not an array.
    InvalidFormat,
    /// The array is empty.
    EmptyCommand,
    /// A bulk string that must be text is not UTF-8.
    InvalidUtf8,
    /// The command name is neither a bulk nor a simple string.
    InvalidNameType,
    GetRequiresKey,
    SetRequiresKey,
    SetRequiresValue,
    /// The value of `SET` is neither a bulk nor a simple string.
    InvalidValueType,
    /// An argument that must be text is neither a bulk nor a simple string.
    InvalidString,
    ExpireRequiresKey,
    ExpireRequiresSeconds,
    /// The seconds of `EXPIRE` are no `u64`.
    InvalidSeconds,
    DelRequiresKey,
}

/// The text an argument frame carries.
pub open spec fn frame_text(f: FrameModel) -> Result<Seq<char>, CommandError> {
    match f {
        FrameModel::Simple(s) => Ok(s),
        FrameModel::Bulk(b) => if valid_utf8(b) {
            Ok(decode_utf8(b))
        } else {
            Err(CommandError::InvalidUtf8)
        },
        _ => Err(CommandError::InvalidString),
    }
}

/// The texts of argument frames, or the error of the first that has none.
pub open spec fn frame_texts(a: Seq<FrameModel>) -> Result<Seq<Seq<char>>, CommandError>
    decreases a.len(),
{
    if a.len() == 0 {
        Ok(seq![])
    } else {
        match frame_texts(a.drop_last()) {
            Err(e) => Err(e),
            Ok(ts) => match frame_text(a.last()) {
                Ok(t) => Ok(ts.push(t)),
                Err(e) => Err(e),
            },
        }
    }
}

/// The command that an uppercased name and its arguments make.
pub open spec fn command_spec(name: Seq<char>, args: Seq<FrameModel>) -> Result<
    CommandModel,
    CommandError,
> {
    if name == "GET"@ {
        if args.len() < 1 {
            Err(CommandError::GetRequiresKey)
        } else {
            match frame_text(args[0]) {
                Ok(k) => Ok(CommandModel::Get(k)),
                Err(e) => Err(e),
            }
        }
    } else if name == "SET"@ {
        if args.len() < 1 {
            Err(CommandError::SetRequiresKey)
        } else if args.len() < 2 {
            Err(CommandError::SetRequiresValue)
        } else {
            match frame_text(args[0]) {
                Err(e) => Err(e),
                Ok(k) => match args[1] {
                    FrameModel::Bulk(v) => Ok(CommandModel::SetValue(k, v)),
                    FrameModel::Simple(s) => Ok(CommandModel::SetValue(k, encode_utf8(s))),
                    _ => Err(CommandError::InvalidValueType),
                },
            }
        }
    } else if name == "PING"@ {
        if args.len() < 1 {
            Ok(CommandModel::Ping(None))
        } else {
            match frame_text(args[0]) {
                Ok(m) => Ok(CommandModel::Ping(Some(m))),
                Err(e) => Err(e),
            }
        }
    } else if name == "EXPIRE"@ {
        if args.len() < 1 {
            Err(CommandError::ExpireRequiresKey)
        } else if args.len() < 2 {
            Err(CommandError::ExpireRequiresSeconds)
        } else {
            match frame_text(args[0]) {
                Err(e) => Err(e),
                Ok(k) => match frame_text(args[1]) {
                    Err(e) => Err(e),
                    Ok(t) => match parse_u64_text(encode_utf8(t)) {
                        Some(secs) => Ok(CommandModel::Expire(k, secs)),
                        None => Err(CommandError::InvalidSeconds),
                    },
                },
            }
        }
    } else if name == "DEL"@ {
        if args.len() < 1 {
            Err(CommandError::DelRequiresKey)
        } else {
            match frame_texts(args) {
                Ok(ks) => Ok(CommandModel::Del(ks)),
                Err(e) => Err(e),
            }
        }
    } else {
        Ok(CommandModel::Unknown(name))
    }
}

/// The command a frame makes: an array whose first part, a bulk or simple
/// string, names it (in any case) and whose other parts are its arguments.
pub open spec fn from_frame_spec(f: FrameModel) -> Result<CommandModel, CommandError> {
    match f {
        FrameModel::Array(a) => if a.len() == 0 {
            Err(CommandError::EmptyCommand)
        } else {
            match a[0] {
                FrameModel::Bulk(b) => if valid_utf8(b) {
                    command_spec(uppercase(decode_utf8(b)), a.drop_first())
                } else {
                    Err(CommandError::InvalidUtf8)
                },
                FrameModel::Simple(s) => command_spec(uppercase(s), a.drop_first()),
                _ => Err(CommandError::InvalidNameType),
            }
        },
        _ => Err(CommandError::InvalidFormat),
    }
}

/// Whether a command writes to the store, and so goes through the
/// replicated log.
pub open spec fn is_write(c: CommandModel) -> bool {
    c is SetValue || c is Del || c is Expire
}

/// The record of `DEL` with keys `ks`.
pub open spec fn del_keys_record(ks: Seq<Seq<char>>) -> FrameModel {
    FrameModel::Array(
        seq![FrameModel::Bulk(bulk_word_del())] + Seq::new(
            ks.len(),
            |i: int| FrameModel::Bulk(encode_utf8(ks[i])),
        ),
    )
}

/// The frame that carries a write through the replicated log, in the form
/// the append-only file records it.
pub open spec fn write_frame(c: CommandModel) -> FrameModel {
    match c {
        CommandModel::SetValue(k, v) => set_record(k, v),
        CommandModel::Expire(k, secs) => expire_record(k, secs),
        CommandModel::Del(ks) => del_keys_record(ks),
        _ => FrameModel::Null,
    }
}

/// The command a committed log entry carries: the payload must be exactly
/// one frame, making a write command.
pub open spec fn replicated_spec(payload: Seq<u8>) -> Option<CommandModel> {
    match decode_spec(payload) {
        Ok(Some((f, n))) => if n == payload.len() {
            match from_frame_spec(f) {
                Ok(c) => if is_write(c) {
                    Some(c)
                } else {
                    None
                },
                Err(_) => None,
            }
        } else {
            None
        },
        _ => None,
    }
}

/// The reply to a command and the store it leaves, at time `now`.
pub open spec fn apply_spec(c: CommandModel, db: DbModel, now: int) -> (DbModel, FrameModel) {
    match c {
        CommandModel::Get(k) => match db.get(k, now).1 {
            Some(v) => (db.get(k, now).0, FrameModel::Bulk(v)),
            None => (db.get(k, now).0, FrameModel::Null),
        },
        CommandModel::SetValue(k, v) => (db.set(k, v), FrameModel::Simple("OK"@)),
        CommandModel::Ping(m) => match m {
            Some(s) => (db, FrameModel::Bulk(encode_utf8(s))),
            None => (db, FrameModel::Simple("PONG"@)),
        },
        CommandModel::Unknown(n) => (
            db,
            FrameModel::Error("unknown command '"@ + n + "'"@),
        ),
        CommandModel::Expire(k, secs) => {
            let (d, ok) = db.set_expires(k, secs, now);
            (d, FrameModel::Integer(if ok { 1 } else { 0 }))
        },
        CommandModel::Del(ks) => (
            db.del(ks, now).0,
            FrameModel::Integer(
                if db.del(ks, now).1 > i64::MAX {
                    i64::MAX as int
                } else {
                    db.del(ks, now).1 as int
                },
            ),
        ),
    }
}

/// Takes the first frame off an array of frames.
fn pop_front_frame(array: &mut Vec<Frame>) -> (r: Option<Frame>)
    ensures
        match r {
            Some(f) => old(array)@.len() > 0 && f == old(array)@[0] && final(array)@ == old(
                array,
            )@.drop_first(),
            None => old(array)@.len() == 0 && final(array)@ == old(array)@,
        },
{
    if array.len() == 0 {
        None
    } else {
        let f = array.remove(0);
        assert(array@ =~= old(array)@.drop_first());
        Some(f)
    }
}

/// The text an argument frame carries.
fn frame_to_string(frame: Frame) -> (r: Result<String, CommandError>)
    ensures
        match r {
            Ok(s) => frame_text(frame@) == Ok::<Seq<char>, CommandError>(s@),
            Err(e) => frame_text(frame@) == Err::<Seq<char>, CommandError>(e),
        },
{
    match frame {
        Frame::Simple(s) => Ok(s),
        Frame::Bulk(b) => match str_from_utf8(b.as_slice()) {
            Some(t) => Ok(t.to_owned()),
            None => Err(CommandError::InvalidUtf8),
        },
        _ => Err(CommandError::InvalidString),
    }
}


/// Once a prefix of the arguments has an argument with no text, so have all.
proof fn lemma_frame_texts_prefix_err(a: Seq<FrameModel>, i: int, e: CommandError)
    requires
        0 <= i <= a.len(),
        frame_texts(a.take(i)) == Err::<Seq<Seq<char>>, CommandError>(e),
    ensures
        frame_texts(a) == Err::<Seq<Seq<char>>, CommandError>(e),
    decreases a.len() - i,
{
    if i == a.len() {
        assert(a.take(i) =~= a);
    } else {
        assert(a.take(i + 1).drop_last() =~= a.take(i));
        lemma_frame_texts_prefix_err(a, i + 1, e);
    }
}

/// `format!("unknown command '{}'", name)`.
fn unknown_command_message(name: &str) -> (r: String)
    ensures
        r@ == "unknown command '"@ + name@ + "'"@,
{
    let mut s = "unknown command '".to_owned();
    s.append(name);
    s.append("'");
    s
}

/// The record of `DEL` with `keys`.
fn del_keys_frame(keys: &Vec<String>) -> (r: Frame)
    ensures
        r@ == del_keys_record(keys@.map_values(|k: String| k@)),
{
    let ghost ks = keys@.map_values(|k: String| k@);
    let mut items: Vec<Frame> = Vec::new();
    items.push(bulk_word(&[68u8, 69u8, 76u8]));
    let mut i: usize = 0;
    while i < keys.len()
        invariant
            i <= keys@.len(),
            ks == keys@.map_values(|k: String| k@),
            items@.len() == i + 1,
            items@[0]@ == FrameModel::Bulk(bulk_word_del()),
            forall|j: int| 0 <= j < i ==> (#[trigger] items@[j + 1])@ == FrameModel::Bulk(encode_utf8(ks[j])),
        decreases keys.len() - i,
    {
        items.push(Frame::Bulk(text_bytes(keys[i].as_str())));
        i = i + 1;
    }
    let r = make_record(items);
    assert(match r@ {
        FrameModel::Array(v) => v =~= seq![FrameModel::Bulk(bulk_word_del())] + Seq::new(
            ks.len(),
            |j: int| FrameModel::Bulk(encode_utf8(ks[j])),
        ),
        _ => false,
    }) by {
        let v = Seq::new(items@.len(), |j: int| items@[j]@);
        assert forall|j: int| 1 <= j < v.len() implies v[j] == FrameModel::Bulk(encode_utf8(ks[j - 1])) by {
            assert(items@[(j - 1) + 1] == items@[j]);
        }
    }
    r
}

impl Command {
    /// The command that the uppercased name `name` and the argument frames
    /// `args` make.
    pub fn from_parts(name: String, args: Vec<Frame>) -> (r: Result<Command, CommandError>)
        ensures
            match r {
                Ok(c) => command_spec(name@, args@.map_values(|f: Frame| f@)) == Ok::<
                    CommandModel,
                    CommandError,
                >(c@),
                Err(e) => command_spec(name@, args@.map_values(|f: Frame| f@)) == Err::<
                    CommandModel,
                    CommandError,
                >(e),
            },
    {
        let ghost a = args@.map_values(|f: Frame| f@);
        let mut array = args;
        if same_text(name.as_str(), "GET") {
            let key_frame = match pop_front_frame(&mut array) {
                Some(f) => f,
                None => return Err(CommandError::GetRequiresKey),
            };
            let key = frame_to_string(key_frame)?;
            Ok(Command::Get(key))
        } else if same_text(name.as_str(), "SET") {
            let key_frame = match pop_front_frame(&mut array) {
                Some(f) => f,
                None => return Err(CommandError::SetRequiresKey),
            };
            let val_frame = match pop_front_frame(&mut array) {
                Some(f) => f,
                None => return Err(CommandError::SetRequiresValue),
            };
            let key = frame_to_string(key_frame)?;
            let val = match val_frame {
                Frame::Bulk(b) => b,
                Frame::Simple(s) => text_bytes(s.as_str()),
                _ => return Err(CommandError::InvalidValueType),
            };
            Ok(Command::SetValue(key, val))
        } else if same_text(name.as_str(), "PING") {
            match pop_front_frame(&mut array) {
                Some(frame) => {
                    let msg = frame_to_string(frame)?;
                    Ok(Command::Ping(Some(msg)))
                },
                None => Ok(Command::Ping(None)),
            }
        } else if same_text(name.as_str(), "EXPIRE") {
            let key_frame = match pop_front_frame(&mut array) {
                Some(f) => f,
                None => return Err(CommandError::ExpireRequiresKey),
            };
            let sec_frame = match pop_front_frame(&mut array) {
                Some(f) => f,
                None => return Err(CommandError::ExpireRequiresSeconds),
            };
            let key = frame_to_string(key_frame)?;
            let secs_str = frame_to_string(sec_frame)?;
            let digits = secs_str.as_str().as_bytes();
            match parse_u64(digits, 0, digits.len()) {
                Some(secs) => {
                    assert(digits@.subrange(0, digits@.len() as int) =~= digits@);
                    Ok(Command::Expire(key, secs))
                },
                None => {
                    assert(digits@.subrange(0, digits@.len() as int) =~= digits@);
                    Err(CommandError::InvalidSeconds)
                },
            }
        } else if same_text(name.as_str(), "DEL") {
            if array.len() == 0 {
                return Err(CommandError::DelRequiresKey);
            }
            let mut keys: Vec<String> = Vec::new();
            let ghost n = a.len();
            assert(a.take(0) =~= Seq::<FrameModel>::empty());
            assert(keys@.map_values(|k: String| k@) =~= Seq::<Seq<char>>::empty());
            assert(array@.map_values(|f: Frame| f@) =~= a.subrange(0, n as int));
            assert(command_spec(name@, a) == match frame_texts(a) {
                Ok(ks) => Ok::<CommandModel, CommandError>(CommandModel::Del(ks)),
                Err(e) => Err::<CommandModel, CommandError>(e),
            });
            while array.len() > 0
                invariant
                    command_spec(name@, a) == match frame_texts(a) {
                        Ok(ks) => Ok::<CommandModel, CommandError>(CommandModel::Del(ks)),
                        Err(e) => Err::<CommandModel, CommandError>(e),
                    },
                    n == a.len(),
                    a == args@.map_values(|f: Frame| f@),
                    array@.len() <= n,
                    array@.map_values(|f: Frame| f@) == a.subrange(n - array@.len(), n as int),
                    frame_texts(a.take(n - array@.len())) == Ok::<Seq<Seq<char>>, CommandError>(
                        keys@.map_values(|k: String| k@),
                    ),
                decreases array@.len(),
            {
                let ghost done = (n - array@.len()) as int;
                let ghost old_array = array@;
                let frame = pop_front_frame(&mut array).unwrap();
                assert(frame@ == a[done]) by {
                    assert(old_array.map_values(|f: Frame| f@)[0] == a.subrange(done, n as int)[0]);
                }
                assert(a.take(done + 1).drop_last() =~= a.take(done));
                assert(a.take(done + 1).last() == a[done]);
                assert forall|j: int| 0 <= j < array@.len() implies (#[trigger] array@[j])@ == a[done
                    + 1 + j] by {
                    assert(array@[j] == old_array[j + 1]);
                    assert(old_array.map_values(|f: Frame| f@)[j + 1] == a.subrange(done, n as int)[j
                        + 1]);
                }
                assert(array@.map_values(|f: Frame| f@) =~= a.subrange(done + 1, n as int));
                let key = match frame_to_string(frame) {
                    Ok(k) => k,
                    Err(e) => {
                        proof {
                            lemma_frame_texts_prefix_err(a, done + 1, e);
                        }
                        return Err(e);
                    },
                };
                let ghost prev = keys@.map_values(|k: String| k@);
                keys.push(key);
                assert(keys@.map_values(|k: String| k@) =~= prev.push(key@));
            }
            assert(a.take(n as int) =~= a);
            Ok(Command::Del(keys))
        } else {
            Ok(Command::Unknown(name))
        }
    }

    /// The command that a committed log entry carries, if it is a write.
    pub fn from_replicated(payload: &[u8]) -> (r: Option<Command>)
        ensures
            match r {
                Some(c) => replicated_spec(payload@) == Some(c@),
                None => replicated_spec(payload@) is None,
            },
    {
        let mut buf = buffer_from(payload);
        let mut codec = RespCodec;
        let frame = match codec.decode(&mut buf) {
            Ok(Some(f)) => f,
            _ => return None,
        };
        if buffer_len(&buf) != 0 {
            return None;
        }
        match Command::from_frame(frame) {
            Ok(c) => match c {
                Command::SetValue(..) | Command::Del(..) | Command::Expire(..) => Some(c),
                _ => None,
            },
            Err(_) => None,
        }
    }

    /// The payload that carries this command through the replicated log, if
    /// it is a write: the bytes of its record.
    pub fn to_replicated(&self) -> (r: Option<Vec<u8>>)
        ensures
            match r {
                Some(p) => is_write(self@) && p@ == encode_spec(write_frame(self@)),
                None => !is_write(self@),
            },
    {
        let frame = match self {
            Command::SetValue(k, v) => set_record_frame(k.as_str(), v),
            Command::Expire(k, secs) => expire_record_frame(k.as_str(), *secs),
            Command::Del(keys) => del_keys_frame(keys),
            _ => return None,
        };
        let empty: Vec<u8> = Vec::new();
        let mut buf = buffer_from(empty.as_slice());
        assert(buffer_contents(buf) =~= Seq::<u8>::empty());
        let mut codec = RespCodec;
        codec.encode(frame, &mut buf);
        assert(buffer_contents(buf) =~= encode_spec(write_frame(self@)));
        Some(vstd::slice::slice_to_vec(buffer_bytes(&buf)))
    }

    /// The command that a frame makes.
    pub fn from_frame(frame: Frame) -> (r: Result<Command, CommandError>)
        ensures
            match r {
                Ok(c) => from_frame_spec(frame@) == Ok::<CommandModel, CommandError>(c@),
                Err(e) => from_frame_spec(frame@) == Err::<CommandModel, CommandError>(e),
            },
    {
        let ghost fm = frame@;
        let mut array = match frame {
            Frame::Array(array) => array,
            _ => return Err(CommandError::InvalidFormat),
        };
        assert(match fm {
            FrameModel::Array(v) => v =~= array@.map_values(|f: Frame| f@),
            _ => false,
        });
        let ghost a = array@.map_values(|f: Frame| f@);
        let command_frame = match pop_front_frame(&mut array) {
            Some(f) => f,
            None => return Err(CommandError::EmptyCommand),
        };
        assert(array@.map_values(|f: Frame| f@) =~= a.drop_first());
        let command_name = match command_frame {
            Frame::Bulk(b) => match str_from_utf8(b.as_slice()) {
                Some(t) => to_uppercase(t),
                None => return Err(CommandError::InvalidUtf8),
            },
            Frame::Simple(s) => to_uppercase(s.as_str()),
            _ => return Err(CommandError::InvalidNameType),
        };
        Command::from_parts(command_name, array)
    }

    /// Carries the command out on `db` at time `now` (nanoseconds since the
    /// Unix epoch) and gives the reply.
    pub fn apply(self, db: &mut Db, now: u128) -> (r: Frame)
        requires
            old(db).wf(),
            self@ matches CommandModel::Expire(_, secs) ==> deadline_fits(now as int, secs as int),
        ensures
            final(db).wf(),
            (final(db)@, r@) == apply_spec(self@, old(db)@, now as int),
    {
        match self {
            Command::Get(key) => {
                match db.get(key.as_str(), now) {
                    Some(val) => Frame::Bulk(val),
                    None => Frame::Null,
                }
            },
            Command::SetValue(key, val) => {
                db.set(key, val);
                Frame::Simple("OK".to_owned())
            },
            Command::Ping(msg) => {
                match msg {
                    Some(s) => Frame::Bulk(text_bytes(s.as_str())),
                    None => Frame::Simple("PONG".to_owned()),
                }
            },
            Command::Unknown(cmd) => Frame::Error(unknown_command_message(cmd.as_str())),
            Command::Expire(key, secs) => {
                let success = db.set_expires(key, secs, now);
                if success {
                    Frame::Integer(1)
                } else {
                    Frame::Integer(0)
                }
            },
            Command::Del(keys) => {
                let n = db.del(keys, now);
                if (n as u64) > (i64::MAX as u64) {
                    Frame::Integer(i64::MAX)
                } else {
                    Frame::Integer(n as i64)
                }
            },
        }
    }
}


/// `SET key value` replies `OK`, and a later `GET key` replies with the
/// value, whenever it comes.
pub proof fn lemma_set_then_get(db: DbModel, k: Seq<char>, v: Seq<u8>, now: int, later: int)
    requires
        db.wf(),
    ensures
        apply_spec(CommandModel::SetValue(k, v), db, now).1 == FrameModel::Simple("OK"@),
        apply_spec(
            CommandModel::Get(k),
            apply_spec(CommandModel::SetValue(k, v), db, now).0,
            later,
        ).1 == FrameModel::Bulk(v),
{
    lemma_get_after_set(db, k, v, later);
}

/// `EXPIRE key seconds` on a key that holds a value replies 1, and a `GET key`
/// once the seconds have passed replies null.
pub proof fn lemma_expire_then_get(db: DbModel, k: Seq<char>, secs: nat, now: int, later: int)
    requires
        db.wf(),
        holds_key(db.shard(k).entries, k),
        later > now + secs * NANOS_PER_SEC,
    ensures
        apply_spec(CommandModel::Expire(k, secs), db, now).1 == FrameModel::Integer(1),
        apply_spec(
            CommandModel::Get(k),
            apply_spec(CommandModel::Expire(k, secs), db, now).0,
            later,
        ).1 == FrameModel::Null,
{
    lemma_get_after_expire(db, k, secs, now, later);
}



/// Whether the record of a write fits the encoding: keys and values no longer
/// than an `i64` counts, seconds that fit a `u64`, and `DEL` with at least
/// one key.
pub open spec fn write_fits(c: CommandModel) -> bool {
    match c {
        CommandModel::SetValue(k, v) => encode_utf8(k).len() <= i64::MAX && v.len() <= i64::MAX,
        CommandModel::Expire(k, secs) => encode_utf8(k).len() <= i64::MAX && secs <= u64::MAX,
        CommandModel::Del(ks) => 1 <= ks.len() < i64::MAX && forall|i: int|
            0 <= i < ks.len() ==> encode_utf8(#[trigger] ks[i]).len() <= i64::MAX,
        _ => false,
    }
}

proof fn lemma_key_texts(ks: Seq<Seq<char>>)
    ensures
        frame_texts(Seq::new(ks.len(), |i: int| FrameModel::Bulk(encode_utf8(ks[i]))))
            == Ok::<Seq<Seq<char>>, CommandError>(ks),
    decreases ks.len(),
{
    let a = Seq::new(ks.len(), |i: int| FrameModel::Bulk(encode_utf8(ks[i])));
    if ks.len() > 0 {
        lemma_key_texts(ks.drop_last());
        assert(a.drop_last() =~= Seq::new(
            ks.drop_last().len(),
            |i: int| FrameModel::Bulk(encode_utf8(ks.drop_last()[i])),
        ));
        encode_utf8_valid_utf8(ks.last());
        encode_utf8_decode_utf8(ks.last());
        assert(ks.drop_last().push(ks.last()) =~= ks);
    } else {
        assert(ks =~= Seq::<Seq<char>>::empty());
    }
}

/// A write sent through the replicated log comes back out as the same
/// command: the payload `to_replicated` gives is read by `from_replicated`
/// as the command it was made from.
pub proof fn lemma_replicated_round_trip(c: CommandModel)
    requires
        write_fits(c),
    ensures
        is_write(c),
        replicated_spec(encode_spec(write_frame(c))) == Some(c),
{
    reveal_strlit("GET");
    reveal_strlit("SET");
    reveal_strlit("PING");
    reveal_strlit("EXPIRE");
    reveal_strlit("DEL");
    let f = write_frame(c);
    let parts = match f {
        FrameModel::Array(p) => p,
        _ => seq![],
    };
    assert(encodable(f)) by {
        assert forall|i: int| 0 <= i < parts.len() implies encodable(#[trigger] parts[i]) by {
            assert(bulk_word_set().len() == 3);
            assert(bulk_word_del().len() == 3);
            assert(bulk_word_expire().len() == 6);
            match c {
                CommandModel::Expire(k, secs) => {
                    lemma_decimal_text(secs);
                    lemma_decimal_text_short(secs);
                },
                CommandModel::Del(ks) => {
                    if i > 0 {
                        assert(parts[i] == FrameModel::Bulk(encode_utf8(ks[i - 1])));
                    }
                },
                _ => {},
            }
        }
    }
    let enc = encode_spec(f);
    lemma_decode_encode(f, Seq::<u8>::empty());
    assert(enc + Seq::<u8>::empty() =~= enc);
    let args = parts.drop_first();
    match c {
        CommandModel::SetValue(k, v) => {
            lemma_word_set();
            encode_utf8_valid_utf8(k);
            encode_utf8_decode_utf8(k);
            assert("SET"@ != "GET"@) by {
                assert("SET"@[0] != "GET"@[0]);
            }
            assert(args[0] == FrameModel::Bulk(encode_utf8(k)));
            assert(args[1] == FrameModel::Bulk(v));
        },
        CommandModel::Expire(k, secs) => {
            lemma_word_expire();
            encode_utf8_valid_utf8(k);
            encode_utf8_decode_utf8(k);
            assert("EXPIRE"@ != "GET"@ && "EXPIRE"@ != "SET"@ && "EXPIRE"@ != "PING"@) by {
                assert("EXPIRE"@.len() != "GET"@.len());
                assert("EXPIRE"@.len() != "SET"@.len());
                assert("EXPIRE"@.len() != "PING"@.len());
            }
            lemma_decimal_text(secs);
            let t = decimal_text(secs);
            assert forall|i: int| 0 <= i < t.len() implies #[trigger] t[i] <= 0x7f by {
                assert(is_digit(t[i]));
            }
            lemma_ascii_valid_utf8(t);
            decode_utf8_encode_utf8(t);
            lemma_parse_decimal_text(secs);
            assert(args[0] == FrameModel::Bulk(encode_utf8(k)));
            assert(args[1] == FrameModel::Bulk(t));
        },
        CommandModel::Del(ks) => {
            lemma_word_del();
            assert("DEL"@ != "GET"@ && "DEL"@ != "SET"@ && "DEL"@ != "PING"@ && "DEL"@
                != "EXPIRE"@) by {
                assert("DEL"@[0] != "GET"@[0]);
                assert("DEL"@[0] != "SET"@[0]);
                assert("DEL"@.len() != "PING"@.len());
                assert("DEL"@.len() != "EXPIRE"@.len());
            }
            assert(args =~= Seq::new(ks.len(), |i: int| FrameModel::Bulk(encode_utf8(ks[i]))));
            lemma_key_texts(ks);
        },
        _ => {},
    }
}


/// `GET` and `PING`, their names written in any mix of ASCII cases, make the
/// commands they name: `GET key` reads `key`, `PING` alone is a plain ping
/// and `PING message` echoes the message.
pub proof fn lemma_parse_get_and_ping(w: Seq<char>, k: Seq<char>)
    requires
        is_ascii_text(w),
    ensures
        ascii_upper(w) == "GET"@ ==> from_frame_spec(
            FrameModel::Array(seq![FrameModel::Bulk(encode_utf8(w)), FrameModel::Bulk(encode_utf8(k))]),
        ) == Ok::<CommandModel, CommandError>(CommandModel::Get(k)),
        ascii_upper(w) == "PING"@ ==> from_frame_spec(
            FrameModel::Array(seq![FrameModel::Bulk(encode_utf8(w))]),
        ) == Ok::<CommandModel, CommandError>(CommandModel::Ping(None)),
        ascii_upper(w) == "PING"@ ==> from_frame_spec(
            FrameModel::Array(seq![FrameModel::Bulk(encode_utf8(w)), FrameModel::Bulk(encode_utf8(k))]),
        ) == Ok::<CommandModel, CommandError>(CommandModel::Ping(Some(k))),
{
    reveal_strlit("GET");
    reveal_strlit("SET");
    reveal_strlit("PING");
    encode_utf8_valid_utf8(w);
    encode_utf8_decode_utf8(w);
    encode_utf8_valid_utf8(k);
    encode_utf8_decode_utf8(k);
    assert("PING"@ != "GET"@ && "PING"@ != "SET"@) by {
        assert("PING"@.len() != "GET"@.len());
        assert("PING"@.len() != "SET"@.len());
    }
    let a1 = seq![FrameModel::Bulk(encode_utf8(w)), FrameModel::Bulk(encode_utf8(k))];
    let a2 = seq![FrameModel::Bulk(encode_utf8(w))];
    assert(a1.drop_first() =~= seq![FrameModel::Bulk(encode_utf8(k))]);
    assert(a2.drop_first() =~= Seq::<FrameModel>::empty());
}

} // verus!
