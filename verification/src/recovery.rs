use vstd::prelude::*;
use vstd::utf8::{decode_utf8, encode_utf8, valid_utf8, encode_utf8_decode_utf8, encode_utf8_valid_utf8};
use crate::buffer::{buffer_contents, buffer_from};
use crate::codec::{decode_overflows, decode_spec, FrameError, RespCodec};
use crate::codec::encode_spec;
use crate::codec_laws::{lemma_ascii_valid_utf8, encodable, lemma_decode_encode, lemma_decode_partial, lemma_encode_len};
use crate::db::{deadline_fits, bulk_word_del, bulk_word_expire, bulk_word_set, del_record, expire_record, set_record, Db, DbModel, NANOS_PER_SEC};
use crate::db_laws::lemma_get_after_set;
use crate::frame::{Frame, FrameModel};
use crate::num::{decimal_text, is_digit, lemma_decimal_text, lemma_parse_decimal_text, parse_u64, parse_u64_text};
use crate::text::{same_text, str_from_utf8, to_uppercase, uppercase, is_ascii_text, ascii_upper};

verus! {

/// Why replaying the append-only file stopped.
#[derive(Debug, Clone, Copy, PartialEq, Eq, Structural)]
pub enum RecoverError {
    /// Bytes that are no frame: the file is corrupt.
    Corrupt(FrameError),
    /// A command name, key or number that is not UTF-8.
    InvalidUtf8,
    /// An `EXPIRE` record whose seconds are no `u64`.
    InvalidInteger,
    /// A frame with a length that no buffer can hold.
    LengthOverflow,
}

/// Replaying one record whose command name, uppercased, is `name`.
pub open spec fn replay_command(db: DbModel, name: Seq<char>, parts: Seq<FrameModel>, now: int) -> (
    DbModel,
    Result<(), RecoverError>,
) {
    if name == "SET"@ {
        if parts.len() > 2 {
            match (parts[1], parts[2]) {
                (FrameModel::Bulk(k), FrameModel::Bulk(v)) => if valid_utf8(k) {
                    (db.set_inner(decode_utf8(k), v), Ok(()))
                } else {
                    (db, Err(RecoverError::InvalidUtf8))
                },
                _ => (db, Ok(())),
            }
        } else {
            (db, Ok(()))
        }
    } else if name == "EXPIRE"@ {
        if parts.len() > 2 {
            match (parts[1], parts[2]) {
                (FrameModel::Bulk(k), FrameModel::Bulk(sb)) => if !valid_utf8(k) {
                    (db, Err(RecoverError::InvalidUtf8))
                } else if !valid_utf8(sb) {
                    (db, Err(RecoverError::InvalidUtf8))
                } else {
                    match parse_u64_text(sb) {
                        Some(secs) => {
                            let key = decode_utf8(k);
                            (
                                db.with_shard(
                                    key,
                                    db.shard(key).set_deadline(key, now + secs * NANOS_PER_SEC),
                                ),
                                Ok(()),
                            )
                        },
                        None => (db, Err(RecoverError::InvalidInteger)),
                    }
                },
                _ => (db, Ok(())),
            }
        } else {
            (db, Ok(()))
        }
    } else if name == "DEL"@ {
        if parts.len() > 1 {
            match parts[1] {
                FrameModel::Bulk(k) => if valid_utf8(k) {
                    let key = decode_utf8(k);
                    (db.with_shard(key, db.shard(key).remove(key).0), Ok(()))
                } else {
                    (db, Err(RecoverError::InvalidUtf8))
                },
                _ => (db, Ok(())),
            }
        } else {
            (db, Ok(()))
        }
    } else {
        (db, Ok(()))
    }
}

/// Replaying one frame of the append-only file: an array whose first part is
/// a bulk string names the command; anything else is passed over.
pub open spec fn replay_spec(db: DbModel, f: FrameModel, now: int) -> (
    DbModel,
    Result<(), RecoverError>,
) {
    match f {
        FrameModel::Array(parts) => if parts.len() > 0 {
            match parts[0] {
                FrameModel::Bulk(b) => if valid_utf8(b) {
                    replay_command(db, uppercase(decode_utf8(b)), parts, now)
                } else {
                    (db, Err(RecoverError::InvalidUtf8))
                },
                _ => (db, Ok(())),
            }
        } else {
            (db, Ok(()))
        },
        _ => (db, Ok(())),
    }
}

/// Replaying the append-only file `s` into `db`: frame after frame until the
/// bytes run out or end in a partial frame; the store as it stands when it
/// stops, and why it stopped.
pub open spec fn recover_spec(db: DbModel, s: Seq<u8>, now: int) -> (
    DbModel,
    Result<(), RecoverError>,
)
    decreases s.len(),
{
    if decode_overflows(s) {
        (db, Err(RecoverError::LengthOverflow))
    } else {
        match decode_spec(s) {
            Ok(None) => (db, Ok(())),
            Err(e) => (db, Err(RecoverError::Corrupt(e))),
            Ok(Some((f, n))) => if 0 < n <= s.len() {
                let (d2, r) = replay_spec(db, f, now);
                if r is Ok {
                    recover_spec(d2, s.subrange(n, s.len() as int), now)
                } else {
                    (d2, r)
                }
            } else {
                (db, Ok(()))
            },
        }
    }
}

/// The text of a bulk string, or why it has none.
fn bulk_text(b: &Vec<u8>) -> (r: Result<String, RecoverError>)
    ensures
        match r {
            Ok(t) => valid_utf8(b@) && t@ == decode_utf8(b@),
            Err(e) => !valid_utf8(b@) && e == RecoverError::InvalidUtf8,
        },
{
    match str_from_utf8(b.as_slice()) {
        Some(t) => Ok(t.to_owned()),
        None => Err(RecoverError::InvalidUtf8),
    }
}

impl Db {
    fn replay_command(&mut self, name: &str, parts: &Vec<Frame>, now: u128) -> (r: Result<
        (),
        RecoverError,
    >)
        requires
            old(self).wf(),
            deadline_fits(now as int, u64::MAX as int),
        ensures
            final(self).wf(),
            (final(self)@, r) == replay_command(
                old(self)@,
                name@,
                parts@.map_values(|f: Frame| f@),
                now as int,
            ),
    {
        let ghost ps = parts@.map_values(|f: Frame| f@);
        if same_text(name, "SET") {
            if parts.len() > 2 {
                match (&parts[1], &parts[2]) {
                    (Frame::Bulk(k), Frame::Bulk(v)) => {
                        let key = bulk_text(k)?;
                        self.set_inner(key, v.clone());
                        Ok(())
                    },
                    _ => Ok(()),
                }
            } else {
                Ok(())
            }
        } else if same_text(name, "EXPIRE") {
            if parts.len() > 2 {
                match (&parts[1], &parts[2]) {
                    (Frame::Bulk(k), Frame::Bulk(sb)) => {
                        let key = bulk_text(k)?;
                        let _ = bulk_text(sb)?;
                        match parse_u64(sb.as_slice(), 0, sb.len()) {
                            Some(secs) => {
                                assert(sb@.subrange(0, sb@.len() as int) =~= sb@);
                                self.set_deadline(key, now + (secs as u128) * NANOS_PER_SEC);
                                Ok(())
                            },
                            None => {
                                assert(sb@.subrange(0, sb@.len() as int) =~= sb@);
                                Err(RecoverError::InvalidInteger)
                            },
                        }
                    },
                    _ => Ok(()),
                }
            } else {
                Ok(())
            }
        } else if same_text(name, "DEL") {
            if parts.len() > 1 {
                match &parts[1] {
                    Frame::Bulk(k) => {
                        let key = bulk_text(k)?;
                        self.remove_key(key.as_str());
                        Ok(())
                    },
                    _ => Ok(()),
                }
            } else {
                Ok(())
            }
        } else {
            Ok(())
        }
    }

    /// Replays one frame of the append-only file.
    pub fn replay(&mut self, frame: &Frame, now: u128) -> (r: Result<(), RecoverError>)
        requires
            old(self).wf(),
            deadline_fits(now as int, u64::MAX as int),
        ensures
            final(self).wf(),
            (final(self)@, r) == replay_spec(old(self)@, frame@, now as int),
    {
        match frame {
            Frame::Array(parts) => {
                assert(match frame@ {
                    FrameModel::Array(v) => v =~= parts@.map_values(|f: Frame| f@),
                    _ => false,
                });
                if parts.len() > 0 {
                    match &parts[0] {
                        Frame::Bulk(b) => {
                            let word = bulk_text(b)?;
                            let name = to_uppercase(word.as_str());
                            self.replay_command(name.as_str(), parts, now)
                        },
                        _ => Ok(()),
                    }
                } else {
                    Ok(())
                }
            },
            _ => Ok(()),
        }
    }

    /// Replays the append-only file `log` at time `now`: a partial frame at the
    /// end is passed over; bytes that are no frame stop it with an error.
    pub fn recover(&mut self, log: &[u8], now: u128) -> (r: Result<(), RecoverError>)
        requires
            old(self).wf(),
            deadline_fits(now as int, u64::MAX as int),
        ensures
            final(self).wf(),
            (final(self)@, r) == recover_spec(old(self)@, log@, now as int),
    {
        let mut codec = RespCodec;
        let mut buf = buffer_from(log);
        loop
            invariant
                self.wf(),
                deadline_fits(now as int, u64::MAX as int),
                recover_spec(old(self)@, log@, now as int) == recover_spec(
                    self@,
                    buffer_contents(buf),
                    now as int,
                ),
            decreases buffer_contents(buf).len(),
        {
            if RespCodec::decode_overflows(&buf) {
                return Err(RecoverError::LengthOverflow);
            }
            match codec.decode(&mut buf) {
                Ok(None) => {
                    return Ok(());
                },
                Err(e) => {
                    return Err(RecoverError::Corrupt(e));
                },
                Ok(Some(frame)) => {
                    self.replay(&frame, now)?;
                },
            }
        }
    }
}


pub(crate) proof fn lemma_word_set()
    ensures
        valid_utf8(bulk_word_set()),
        decode_utf8(bulk_word_set()) == "SET"@,
        uppercase("SET"@) == "SET"@,
{
    reveal_strlit("SET");
    let w: Seq<char> = seq!['S', 'E', 'T'];
    assert(encode_utf8(w) =~= bulk_word_set()) by {
        assert(vstd::utf8::is_ascii_chars(w));
        vstd::utf8::is_ascii_chars_encode_utf8(w);
        assert(encode_utf8(w)[0] == w[0] as u8);
        assert(encode_utf8(w)[1] == w[1] as u8);
        assert(encode_utf8(w)[2] == w[2] as u8);
        assert(('S' as u8) == 83u8);
        assert(('E' as u8) == 69u8);
        assert(('T' as u8) == 84u8);
    }
    encode_utf8_valid_utf8(w);
    encode_utf8_decode_utf8(w);
    assert("SET"@ =~= w);
    assert(is_ascii_text(w));
    assert(ascii_upper(w) =~= w);
}

/// Replaying the record that storing `v` under `k` wrote stores `v` under
/// `k`.
pub proof fn lemma_replay_set_record(db: DbModel, k: Seq<char>, v: Seq<u8>, now: int)
    ensures
        replay_spec(db, set_record(k, v), now) == (db.set_inner(k, v), Ok::<(), RecoverError>(())),
{
    lemma_word_set();
    encode_utf8_valid_utf8(k);
    encode_utf8_decode_utf8(k);
    let parts = match set_record(k, v) {
        FrameModel::Array(p) => p,
        _ => seq![],
    };
    assert(parts[0] == FrameModel::Bulk(bulk_word_set()));
}

pub(crate) proof fn lemma_word_del()
    ensures
        valid_utf8(bulk_word_del()),
        decode_utf8(bulk_word_del()) == "DEL"@,
        uppercase("DEL"@) == "DEL"@,
{
    reveal_strlit("DEL");
    let w: Seq<char> = seq!['D', 'E', 'L'];
    assert(encode_utf8(w) =~= bulk_word_del()) by {
        assert(vstd::utf8::is_ascii_chars(w));
        vstd::utf8::is_ascii_chars_encode_utf8(w);
        assert(encode_utf8(w)[0] == w[0] as u8);
        assert(encode_utf8(w)[1] == w[1] as u8);
        assert(encode_utf8(w)[2] == w[2] as u8);
        assert(('D' as u8) == 68u8);
        assert(('E' as u8) == 69u8);
        assert(('L' as u8) == 76u8);
    }
    encode_utf8_valid_utf8(w);
    encode_utf8_decode_utf8(w);
    assert("DEL"@ =~= w);
    assert(is_ascii_text(w));
    assert(ascii_upper(w) =~= w);
}

/// Replaying the record that deleting `k` wrote removes `k` and its deadline.
pub proof fn lemma_replay_del_record(db: DbModel, k: Seq<char>, now: int)
    ensures
        replay_spec(db, del_record(k), now) == (
            db.with_shard(k, db.shard(k).remove(k).0),
            Ok::<(), RecoverError>(()),
        ),
{
    lemma_word_del();
    reveal_strlit("DEL");
    reveal_strlit("SET");
    reveal_strlit("EXPIRE");
    assert("DEL"@[0] != "SET"@[0]);
    assert("DEL"@.len() != "EXPIRE"@.len());
    encode_utf8_valid_utf8(k);
    encode_utf8_decode_utf8(k);
    let parts = match del_record(k) {
        FrameModel::Array(p) => p,
        _ => seq![],
    };
    assert(parts[0] == FrameModel::Bulk(bulk_word_del()));
}

pub(crate) proof fn lemma_word_expire()
    ensures
        valid_utf8(bulk_word_expire()),
        decode_utf8(bulk_word_expire()) == "EXPIRE"@,
        uppercase("EXPIRE"@) == "EXPIRE"@,
{
    reveal_strlit("EXPIRE");
    let w: Seq<char> = seq!['E', 'X', 'P', 'I', 'R', 'E'];
    assert(encode_utf8(w) =~= bulk_word_expire()) by {
        assert(vstd::utf8::is_ascii_chars(w));
        vstd::utf8::is_ascii_chars_encode_utf8(w);
        assert(encode_utf8(w)[0] == w[0] as u8);
        assert(encode_utf8(w)[1] == w[1] as u8);
        assert(encode_utf8(w)[2] == w[2] as u8);
        assert(encode_utf8(w)[3] == w[3] as u8);
        assert(encode_utf8(w)[4] == w[4] as u8);
        assert(encode_utf8(w)[5] == w[5] as u8);
        assert(('E' as u8) == 69u8);
        assert(('X' as u8) == 88u8);
        assert(('P' as u8) == 80u8);
        assert(('I' as u8) == 73u8);
        assert(('R' as u8) == 82u8);
    }
    encode_utf8_valid_utf8(w);
    encode_utf8_decode_utf8(w);
    assert("EXPIRE"@ =~= w);
    assert(is_ascii_text(w));
    assert(ascii_upper(w) =~= w);
}

spec fn ten_pow(d: nat) -> nat
    decreases d,
{
    if d == 0 {
        1
    } else {
        10 * ten_pow((d - 1) as nat)
    }
}

proof fn lemma_decimal_text_len(n: nat, d: nat)
    requires
        n < ten_pow(d),
    ensures
        decimal_text(n).len() <= d + 1,
    decreases d,
{
    if n >= 10 {
        assert(d > 0);
        assert(n / 10 < ten_pow((d - 1) as nat));
        lemma_decimal_text_len(n / 10, (d - 1) as nat);
    }
}

/// The decimal text of a number up to `u64::MAX` has at most twenty-one
/// digits.
pub(crate) proof fn lemma_decimal_text_short(n: nat)
    requires
        n <= u64::MAX,
    ensures
        decimal_text(n).len() <= 21,
{
    assert(ten_pow(20) == 100000000000000000000) by {
        reveal_with_fuel(ten_pow, 21);
    }
    lemma_decimal_text_len(n, 20);
}

/// Replaying the record that making `k` expire `secs` seconds later wrote,
/// at `now`, gives `k` the deadline `secs` seconds after `now`.
pub proof fn lemma_replay_expire_record(db: DbModel, k: Seq<char>, secs: nat, now: int)
    requires
        secs <= u64::MAX,
    ensures
        replay_spec(db, expire_record(k, secs), now) == (
            db.with_shard(k, db.shard(k).set_deadline(k, now + secs * NANOS_PER_SEC)),
            Ok::<(), RecoverError>(()),
        ),
{
    lemma_word_expire();
    reveal_strlit("SET");
    reveal_strlit("EXPIRE");
    assert("EXPIRE"@.len() != "SET"@.len());
    encode_utf8_valid_utf8(k);
    encode_utf8_decode_utf8(k);
    lemma_decimal_text(secs);
    let t = decimal_text(secs);
    assert forall|i: int| 0 <= i < t.len() implies #[trigger] t[i] <= 0x7f by {
        assert(is_digit(t[i]));
    }
    lemma_ascii_valid_utf8(t);
    lemma_parse_decimal_text(secs);
    let parts = match expire_record(k, secs) {
        FrameModel::Array(p) => p,
        _ => seq![],
    };
    assert(parts[0] == FrameModel::Bulk(bulk_word_expire()));
}

/// The bytes of frames written one after another.
pub open spec fn encode_all(fs: Seq<FrameModel>) -> Seq<u8>
    decreases fs.len(),
{
    if fs.len() == 0 {
        seq![]
    } else {
        encode_spec(fs[0]) + encode_all(fs.drop_first())
    }
}

/// Replaying frames one after another, stopping at the first that fails.
pub open spec fn replay_all(db: DbModel, fs: Seq<FrameModel>, now: int) -> (
    DbModel,
    Result<(), RecoverError>,
)
    decreases fs.len(),
{
    if fs.len() == 0 {
        (db, Ok(()))
    } else {
        let (d2, r) = replay_spec(db, fs[0], now);
        if r is Ok {
            replay_all(d2, fs.drop_first(), now)
        } else {
            (d2, r)
        }
    }
}

/// Recovering an append-only file written as the records `fs`, one after
/// another, and then the first `n` bytes of one more record `cut` (none, or
/// some but not all of them, as a write cut short leaves), replays the
/// records of `fs` in order and passes over the cut record.
pub proof fn lemma_recover_records(
    db: DbModel,
    fs: Seq<FrameModel>,
    cut: FrameModel,
    n: int,
    now: int,
)
    requires
        forall|i: int| 0 <= i < fs.len() ==> encodable(#[trigger] fs[i]),
        encodable(cut),
        0 <= n < encode_spec(cut).len(),
    ensures
        recover_spec(db, encode_all(fs) + encode_spec(cut).subrange(0, n), now) == replay_all(
            db,
            fs,
            now,
        ),
    decreases fs.len(),
{
    let tail = encode_spec(cut).subrange(0, n);
    if fs.len() == 0 {
        assert(encode_all(fs) + tail =~= tail);
        if n > 0 {
            lemma_decode_partial(cut, n);
        }
    } else {
        let f = fs[0];
        let rest = encode_all(fs.drop_first()) + tail;
        let s = encode_all(fs) + tail;
        assert(s =~= encode_spec(f) + rest);
        lemma_decode_encode(f, rest);
        lemma_encode_len(f);
        let len = encode_spec(f).len() as int;
        assert(s.subrange(len, s.len() as int) =~= rest);
        let (d2, r) = replay_spec(db, f, now);
        if r is Ok {
            assert forall|i: int| 0 <= i < fs.drop_first().len() implies encodable(
                #[trigger] fs.drop_first()[i],
            ) by {
                assert(fs.drop_first()[i] == fs[i + 1]);
            }
            lemma_recover_records(d2, fs.drop_first(), cut, n, now);
        }
    }
}

/// Recovering an append-only file written as the records `fs` and then bytes
/// `bad` that are no frame replays the records of `fs` in order and then
/// rejects the file as corrupt, unless a record of `fs` stopped it first.
pub proof fn lemma_recover_rejects_corruption(
    db: DbModel,
    fs: Seq<FrameModel>,
    bad: Seq<u8>,
    e: FrameError,
    now: int,
)
    requires
        forall|i: int| 0 <= i < fs.len() ==> encodable(#[trigger] fs[i]),
        decode_spec(bad) == Err::<Option<(FrameModel, int)>, FrameError>(e),
        !decode_overflows(bad),
    ensures
        recover_spec(db, encode_all(fs) + bad, now) == (
            replay_all(db, fs, now).0,
            if replay_all(db, fs, now).1 is Ok {
                Err::<(), RecoverError>(RecoverError::Corrupt(e))
            } else {
                replay_all(db, fs, now).1
            },
        ),
    decreases fs.len(),
{
    if fs.len() == 0 {
        assert(encode_all(fs) + bad =~= bad);
    } else {
        let f = fs[0];
        let rest = encode_all(fs.drop_first()) + bad;
        let s = encode_all(fs) + bad;
        assert(s =~= encode_spec(f) + rest);
        lemma_decode_encode(f, rest);
        lemma_encode_len(f);
        let len = encode_spec(f).len() as int;
        assert(s.subrange(len, s.len() as int) =~= rest);
        let (d2, r) = replay_spec(db, f, now);
        if r is Ok {
            assert forall|i: int| 0 <= i < fs.drop_first().len() implies encodable(
                #[trigger] fs.drop_first()[i],
            ) by {
                assert(fs.drop_first()[i] == fs[i + 1]);
            }
            lemma_recover_rejects_corruption(d2, fs.drop_first(), bad, e, now);
        }
    }
}

/// A write that the append-only file records.
pub enum Write {
    /// Storing a value under a key.
    Store(Seq<char>, Seq<u8>),
    /// Deleting a key.
    Delete(Seq<char>),
    /// Making a key expire a number of seconds after the file is replayed.
    Expire(Seq<char>, nat),
}

/// The record of a write.
pub open spec fn write_record(w: Write) -> FrameModel {
    match w {
        Write::Store(k, v) => set_record(k, v),
        Write::Delete(k) => del_record(k),
        Write::Expire(k, secs) => expire_record(k, secs),
    }
}

/// The records of writes, in order.
pub open spec fn write_records(ws: Seq<Write>) -> Seq<FrameModel> {
    Seq::new(ws.len(), |i: int| write_record(ws[i]))
}

/// What the writes do to the shards, in order, with deadlines counted from
/// `now`.
pub open spec fn apply_writes(db: DbModel, ws: Seq<Write>, now: int) -> DbModel
    decreases ws.len(),
{
    if ws.len() == 0 {
        db
    } else {
        let d = match ws[0] {
            Write::Store(k, v) => db.set_inner(k, v),
            Write::Delete(k) => db.with_shard(k, db.shard(k).remove(k).0),
            Write::Expire(k, secs) => db.with_shard(
                k,
                db.shard(k).set_deadline(k, now + secs * NANOS_PER_SEC),
            ),
        };
        apply_writes(d, ws.drop_first(), now)
    }
}

/// Whether the record of a write fits the encoding.
pub open spec fn write_fits(w: Write) -> bool {
    match w {
        Write::Store(k, v) => encode_utf8(k).len() <= i64::MAX && v.len() <= i64::MAX,
        Write::Delete(k) => encode_utf8(k).len() <= i64::MAX,
        Write::Expire(k, secs) => encode_utf8(k).len() <= i64::MAX && secs <= u64::MAX,
    }
}

/// Restarting at `now` from an append-only file that holds the records of a
/// run of writes, in order, redoes every one of them, in order; a key made to
/// expire gets its seconds counted from `now`.
pub proof fn lemma_recover_writes(db: DbModel, ws: Seq<Write>, now: int)
    requires
        forall|i: int| 0 <= i < ws.len() ==> write_fits(#[trigger] ws[i]),
    ensures
        recover_spec(db, encode_all(write_records(ws)), now) == (
            apply_writes(db, ws, now),
            Ok::<(), RecoverError>(()),
        ),
{
    let fs = write_records(ws);
    assert forall|i: int| 0 <= i < fs.len() implies encodable(#[trigger] fs[i]) by {
        lemma_write_encodable(ws[i]);
    }
    let cut = FrameModel::Null;
    assert(encode_spec(cut).len() > 0) by {
        lemma_encode_len(cut);
    }
    assert(encode_spec(cut).subrange(0, 0) =~= Seq::<u8>::empty());
    assert(encode_all(fs) + encode_spec(cut).subrange(0, 0) =~= encode_all(fs));
    lemma_recover_records(db, fs, cut, 0, now);
    lemma_replay_writes(db, ws, now);
}

proof fn lemma_write_encodable(w: Write)
    requires
        write_fits(w),
    ensures
        encodable(write_record(w)),
{
    let r = write_record(w);
    let parts = match r {
        FrameModel::Array(p) => p,
        _ => seq![],
    };
    assert forall|i: int| 0 <= i < parts.len() implies encodable(#[trigger] parts[i]) by {
        assert(bulk_word_set().len() == 3);
        assert(bulk_word_del().len() == 3);
        assert(bulk_word_expire().len() == 6);
        match w {
            Write::Expire(k, secs) => {
                lemma_decimal_text(secs);
                lemma_decimal_text_short(secs);
            },
            _ => {},
        }
    }
}

proof fn lemma_replay_writes(db: DbModel, ws: Seq<Write>, now: int)
    requires
        forall|i: int| 0 <= i < ws.len() ==> write_fits(#[trigger] ws[i]),
    ensures
        replay_all(db, write_records(ws), now) == (apply_writes(db, ws, now), Ok::<(), RecoverError>(())),
    decreases ws.len(),
{
    let fs = write_records(ws);
    if ws.len() > 0 {
        let d = match ws[0] {
            Write::Store(k, v) => {
                lemma_replay_set_record(db, k, v, now);
                db.set_inner(k, v)
            },
            Write::Delete(k) => {
                lemma_replay_del_record(db, k, now);
                db.with_shard(k, db.shard(k).remove(k).0)
            },
            Write::Expire(k, secs) => {
                lemma_replay_expire_record(db, k, secs, now);
                db.with_shard(k, db.shard(k).set_deadline(k, now + secs * NANOS_PER_SEC))
            },
        };
        assert(fs.drop_first() =~= write_records(ws.drop_first()));
        assert forall|i: int| 0 <= i < ws.drop_first().len() implies write_fits(
            #[trigger] ws.drop_first()[i],
        ) by {
            assert(ws.drop_first()[i] == ws[i + 1]);
        }
        lemma_replay_writes(d, ws.drop_first(), now);
    }
}

/// An append-only file that holds the record of storing `v` under `k`,
/// replayed into any store, leaves `v` readable under `k` at any time.
pub proof fn lemma_recover_set(db: DbModel, k: Seq<char>, v: Seq<u8>, now: int, later: int)
    requires
        db.wf(),
        encode_utf8(k).len() <= i64::MAX,
        v.len() <= i64::MAX,
    ensures
        recover_spec(db, encode_spec(set_record(k, v)), now) == (
            db.set_inner(k, v),
            Ok::<(), RecoverError>(()),
        ),
        recover_spec(db, encode_spec(set_record(k, v)), now).0.get(k, later).1 == Some(v),
{
    let r = set_record(k, v);
    let parts = match r {
        FrameModel::Array(p) => p,
        _ => seq![],
    };
    assert(encodable(r)) by {
        assert forall|i: int| 0 <= i < parts.len() implies encodable(#[trigger] parts[i]) by {
            assert(bulk_word_set().len() == 3);
        }
    }
    let s = encode_spec(r);
    lemma_decode_encode(r, Seq::<u8>::empty());
    assert(s + Seq::<u8>::empty() =~= s);
    lemma_replay_set_record(db, k, v, now);
    let rest = s.subrange(s.len() as int, s.len() as int);
    assert(rest.len() == 0);
    assert(recover_spec(db.set_inner(k, v), rest, now) == (
        db.set_inner(k, v),
        Ok::<(), RecoverError>(()),
    ));
    lemma_get_after_set(db, k, v, later);
}

} // verus!
