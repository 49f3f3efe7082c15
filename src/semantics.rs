//! What each command does, as functions from the store's contents, the
//! request and the time to the new contents and the reply.
use crate::decimal::{decimal, i64_value, unsigned_value};
use crate::resp::Frame;
use crate::text::{is_word, join_commas, split_commas};
use crate::value::{expired, StoredValue};
use vstd::prelude::*;
use vstd::utf8::{decode_utf8, encode_utf8, valid_utf8};

verus! {

/// The contents of a store: key to stored value.
pub type Db = Map<Seq<char>, StoredValue>;

pub open spec fn err(msg: &str) -> Frame {
    Frame::Error(msg@)
}

/// A reply that carries text.
pub open spec fn text_frame(t: Seq<char>) -> Frame {
    Frame::Bulk(Some(encode_utf8(t)))
}

/// The bytes of a present bulk argument.
pub open spec fn bulk_arg(f: Frame) -> Option<Seq<u8>> {
    match f {
        Frame::Bulk(Some(b)) => Some(b),
        _ => None,
    }
}

/// The text of a present bulk argument whose bytes are UTF-8.
pub open spec fn text_arg(f: Frame) -> Option<Seq<char>> {
    match f {
        Frame::Bulk(Some(b)) => if valid_utf8(b) {
            Some(decode_utf8(b))
        } else {
            None
        },
        _ => None,
    }
}

/// The texts of all of `a`, when each is a text argument.
pub open spec fn arg_texts(a: Seq<Frame>) -> Option<Seq<Seq<char>>>
    decreases a.len(),
{
    if a.len() == 0 {
        Some(Seq::empty())
    } else {
        match (arg_texts(a.drop_last()), text_arg(a.last())) {
            (Some(ts), Some(t)) => Some(ts.push(t)),
            _ => None,
        }
    }
}

/// GET: the payload of a live entry; an expired one is dropped and reads as absent.
pub open spec fn get_spec(db: Db, k: Seq<char>, now: u128) -> (Db, Frame) {
    if !db.contains_key(k) {
        (db, Frame::Bulk(None))
    } else if expired(db[k], now) {
        (db.remove(k), Frame::Bulk(None))
    } else {
        (db, text_frame(db[k].payload))
    }
}

/// INCR (`up`) and DECR: the payload read as an `i64`, moved by one, stored
/// back as text under the same expiry.
pub open spec fn adjust_spec(db: Db, k: Seq<char>, now: u128, up: bool) -> (Db, Frame) {
    if !db.contains_key(k) {
        (db, err("key does not exist"))
    } else if expired(db[k], now) {
        (db.remove(k), err("key has expired"))
    } else {
        match i64_value(encode_utf8(db[k].payload)) {
            None => (db, err("value is not an integer")),
            Some(n) => {
                let m: int = if up { n + 1 } else { n - 1 };
                if i64::MIN <= m <= i64::MAX {
                    (
                        db.insert(
                            k,
                            StoredValue { payload: decode_utf8(decimal(m)), expiry: db[k].expiry },
                        ),
                        Frame::Integer(m as i64),
                    )
                } else {
                    (db, err("increment or decrement would overflow"))
                }
            },
        }
    }
}

/// EXISTS over `keys` in order: the number of live hits; each expired entry
/// met on the way is dropped.
pub open spec fn exists_fold(db: Db, keys: Seq<Seq<char>>, now: u128) -> (Db, nat)
    decreases keys.len(),
{
    if keys.len() == 0 {
        (db, 0)
    } else {
        let (d, c) = exists_fold(db, keys.drop_last(), now);
        let k = keys.last();
        if d.contains_key(k) {
            if expired(d[k], now) {
                (d.remove(k), c)
            } else {
                (d, c + 1)
            }
        } else {
            (d, c)
        }
    }
}

/// DEL over `keys` in order: each present entry is removed and counted.
pub open spec fn del_fold(db: Db, keys: Seq<Seq<char>>) -> (Db, nat)
    decreases keys.len(),
{
    if keys.len() == 0 {
        (db, 0)
    } else {
        let (d, c) = del_fold(db, keys.drop_last());
        let k = keys.last();
        if d.contains_key(k) {
            (d.remove(k), c + 1)
        } else {
            (d, c)
        }
    }
}

/// LPUSH (`left`) and RPUSH. LPUSH puts each item at the head in turn, so the
/// items end up in reverse order before the old list; RPUSH appends them in
/// order. A new list gets no expiry; an existing one keeps its own.
pub open spec fn push_spec(db: Db, k: Seq<char>, items: Seq<Seq<char>>, left: bool, now: u128) -> (
    Db,
    Frame,
) {
    let old_list: Seq<Seq<char>> = if db.contains_key(k) {
        split_commas(db[k].payload)
    } else {
        Seq::empty()
    };
    let l = if left {
        items.reverse() + old_list
    } else {
        old_list + items
    };
    if db.contains_key(k) && expired(db[k], now) {
        (db.remove(k), err("key has expired"))
    } else {
        let expiry = if db.contains_key(k) {
            db[k].expiry
        } else {
            None
        };
        (
            db.insert(k, StoredValue { payload: join_commas(l), expiry }),
            Frame::Integer(l.len() as i64),
        )
    }
}

/// The end (exclusive) of the slice that LRANGE takes: one past `stop`, but
/// no further than the list.
pub open spec fn range_end(stop: nat, len: nat) -> nat {
    if stop >= len {
        len
    } else {
        stop + 1
    }
}

/// The items from `start` to `stop`, both included, of those that exist.
pub open spec fn range_of(l: Seq<Seq<char>>, start: nat, stop: nat) -> Seq<Seq<char>> {
    if start < range_end(stop, l.len()) {
        l.subrange(start as int, range_end(stop, l.len()) as int)
    } else {
        Seq::empty()
    }
}

/// LRANGE: the slice of the list, each item as text.
pub open spec fn lrange_spec(db: Db, k: Seq<char>, start: nat, stop: nat, now: u128) -> (Db, Frame) {
    if !db.contains_key(k) {
        (db, err("key does not exist"))
    } else if expired(db[k], now) {
        (db.remove(k), err("key has expired"))
    } else {
        (
            db,
            Frame::Array(
                range_of(split_commas(db[k].payload), start, stop).map_values(
                    |t: Seq<char>| text_frame(t),
                ),
            ),
        )
    }
}

/// An index argument of LRANGE: a number, or zero when it is none.
pub open spec fn index_arg(b: Seq<u8>) -> nat {
    match unsigned_value(b) {
        Some(n) => if n <= usize::MAX {
            n
        } else {
            0
        },
        None => 0,
    }
}

/// The expiry that one SET option sets: `None` for an unknown option,
/// `Some(None)` when its value is no usable time.
pub open spec fn expiry_of(opt: Seq<u8>, val: Frame, now: u128) -> Option<Option<u128>> {
    let n = match bulk_arg(val) {
        Some(b) => unsigned_value(b),
        None => None,
    };
    if is_word(opt, "EX") {
        Some(
            match n {
                Some(s) => if s <= u64::MAX && now + s * 1000 <= u128::MAX {
                    Some((now + s * 1000) as u128)
                } else {
                    None
                },
                None => None,
            },
        )
    } else if is_word(opt, "PX") {
        Some(
            match n {
                Some(m) => if now + m <= u128::MAX {
                    Some((now + m) as u128)
                } else {
                    None
                },
                None => None,
            },
        )
    } else if is_word(opt, "EXAT") {
        Some(
            match n {
                Some(s) => if s <= u64::MAX {
                    Some((s * 1000) as u128)
                } else {
                    None
                },
                None => None,
            },
        )
    } else if is_word(opt, "PXAT") {
        Some(
            match n {
                Some(m) => if m <= u128::MAX {
                    Some(m as u128)
                } else {
                    None
                },
                None => None,
            },
        )
    } else {
        None
    }
}

/// The option pairs of SET from position `i` on, each overriding the ones
/// before: the expiry they set, or the error.
pub open spec fn set_opts(args: Seq<Frame>, i: int, now: u128, acc: Option<u128>) -> Result<
    Option<u128>,
    Seq<char>,
>
    decreases args.len() - i,
{
    if i < 0 || i >= args.len() {
        Ok(acc)
    } else {
        match bulk_arg(args[i]) {
            None => Err("invalid option format"@),
            Some(opt) => if i + 1 >= args.len() {
                Err("invalid SET arguments"@)
            } else {
                match expiry_of(opt, args[i + 1], now) {
                    None => Err("syntax error"@),
                    Some(None) => Err("invalid expire time"@),
                    Some(Some(e)) => set_opts(args, i + 2, now, Some(e)),
                }
            },
        }
    }
}

/// SET: the key, the value and the options; nothing is stored on an error.
pub open spec fn set_spec(db: Db, args: Seq<Frame>, now: u128) -> (Db, Frame) {
    match (text_arg(args[1]), text_arg(args[2])) {
        (Some(k), Some(v)) => match set_opts(args, 3, now, None) {
            Ok(e) => (db.insert(k, StoredValue { payload: v, expiry: e }), Frame::Simple("OK"@)),
            Err(m) => (db, Frame::Error(m)),
        },
        _ => (db, err("invalid SET arguments")),
    }
}

pub open spec fn wrong_arity(db: Db) -> (Db, Frame) {
    (db, err("wrong number of arguments"))
}

/// Whether the request asks for a snapshot of the store.
pub open spec fn is_save(args: Seq<Frame>) -> bool {
    args.len() > 0 && (bulk_arg(args[0]) matches Some(name) && is_word(name, "SAVE"))
}

/// What an array request does to the store and what it replies; a snapshot
/// request leaves the store as it is, and is answered once the snapshot is
/// written.
pub open spec fn command_spec(db: Db, args: Seq<Frame>, now: u128) -> (Db, Frame) {
    if args.len() == 0 {
        (db, err("invalid command format"))
    } else {
        match bulk_arg(args[0]) {
            None => (db, err("invalid command format")),
            Some(name) => if is_word(name, "PING") {
                (db, Frame::Simple("PONG"@))
            } else if is_word(name, "ECHO") {
                if args.len() < 2 {
                    wrong_arity(db)
                } else {
                    match bulk_arg(args[1]) {
                        Some(b) => (db, Frame::Bulk(Some(b))),
                        None => (db, err("invalid ECHO argument")),
                    }
                }
            } else if is_word(name, "SET") {
                if args.len() < 3 {
                    wrong_arity(db)
                } else {
                    set_spec(db, args, now)
                }
            } else if is_word(name, "GET") {
                if args.len() < 2 {
                    wrong_arity(db)
                } else {
                    match text_arg(args[1]) {
                        Some(k) => get_spec(db, k, now),
                        None => (db, err("invalid GET argument")),
                    }
                }
            } else if is_word(name, "EXISTS") {
                if args.len() < 2 {
                    wrong_arity(db)
                } else {
                    match arg_texts(args.drop_first()) {
                        Some(ks) => {
                            let (d, c) = exists_fold(db, ks, now);
                            (d, Frame::Integer(c as i64))
                        },
                        None => (db, err("invalid EXISTS argument")),
                    }
                }
            } else if is_word(name, "DEL") {
                if args.len() < 2 {
                    wrong_arity(db)
                } else {
                    match arg_texts(args.drop_first()) {
                        Some(ks) => {
                            let (d, c) = del_fold(db, ks);
                            (d, Frame::Integer(c as i64))
                        },
                        None => (db, err("invalid DEL argument")),
                    }
                }
            } else if is_word(name, "INCR") || is_word(name, "DECR") {
                if args.len() < 2 {
                    wrong_arity(db)
                } else {
                    match text_arg(args[1]) {
                        Some(k) => adjust_spec(db, k, now, is_word(name, "INCR")),
                        None => (db, err("invalid INCR or DECR argument")),
                    }
                }
            } else if is_word(name, "LPUSH") || is_word(name, "RPUSH") {
                if args.len() < 3 {
                    wrong_arity(db)
                } else {
                    match (text_arg(args[1]), arg_texts(args.subrange(2, args.len() as int))) {
                        (Some(k), Some(items)) => push_spec(
                            db,
                            k,
                            items,
                            is_word(name, "LPUSH"),
                            now,
                        ),
                        _ => (db, err("invalid LPUSH or RPUSH argument")),
                    }
                }
            } else if is_word(name, "LRANGE") {
                if args.len() != 4 {
                    wrong_arity(db)
                } else {
                    match (text_arg(args[1]), bulk_arg(args[2]), bulk_arg(args[3])) {
                        (Some(k), Some(s), Some(t)) => lrange_spec(
                            db,
                            k,
                            index_arg(s),
                            index_arg(t),
                            now,
                        ),
                        _ => (db, err("invalid LRANGE argument")),
                    }
                }
            } else if is_word(name, "SAVE") {
                (db, Frame::Simple("OK"@))
            } else {
                (db, err("unknown command"))
            },
        }
    }
}

/// A status request: PING, in any case, gets PONG; anything else is unknown.
pub open spec fn simple_spec(cmd: Seq<char>) -> Frame {
    if is_word(encode_utf8(cmd), "PING") {
        Frame::Simple("PONG"@)
    } else {
        err("unknown command")
    }
}

} // verus!
