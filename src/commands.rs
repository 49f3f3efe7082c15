use crate::codec_laws::lemma_decimal_plain;
use crate::decimal::{decimal, parse_i64, parse_u128, parse_u64, parse_usize, push_decimal};
use crate::resp::{decode_spec, frames_of, lemma_frames_of_len, parse_resp, utf8_text, Frame, RespMessage};
use crate::semantics::{
    adjust_spec, arg_texts, command_spec, del_fold, err, exists_fold, get_spec, index_arg, is_save,
    lrange_spec, push_spec, range_end, range_of, set_opts, simple_spec, text_arg, text_frame, Db,
};
use crate::store::Store;
use crate::text::{join, matches_word, split, views};
use crate::value::ValueWithExpiry;
use vstd::prelude::*;
use vstd::slice::slice_to_vec;
use vstd::utf8::{decode_utf8, decode_utf8_encode_utf8, encode_utf8};

verus! {

/// A reply with the error text `msg`.
pub fn error_reply(msg: &str) -> (r: RespMessage)
    ensures
        r@ == err(msg),
{
    RespMessage::Error(msg.to_string())
}

/// A bulk reply that carries the text `s`.
pub fn text_reply(s: &String) -> (r: RespMessage)
    ensures
        r@ == text_frame(s@),
{
    RespMessage::BulkString(Some(slice_to_vec(s.as_str().as_bytes())))
}

/// The text of a bulk argument, when its bytes are UTF-8.
pub fn text_of(m: &RespMessage) -> (r: Option<String>)
    ensures
        match r {
            Some(s) => text_arg(m@) == Some(s@),
            None => text_arg(m@) is None,
        },
{
    match m {
        RespMessage::BulkString(Some(b)) => match utf8_text(b.as_slice()) {
            Some(t) => Some(t.to_string()),
            None => None,
        },
        _ => None,
    }
}

/// The decimal text of `n`.
pub fn decimal_text(n: i64) -> (r: String)
    ensures
        r@ == decode_utf8(decimal(n as int)),
        encode_utf8(r@) == decimal(n as int),
{
    let mut b: Vec<u8> = Vec::new();
    push_decimal(n as i128, &mut b);
    proof {
        assert(b@ =~= decimal(n as int));
        lemma_decimal_plain(n as int);
        decode_utf8_encode_utf8(decimal(n as int));
    }
    match utf8_text(b.as_slice()) {
        Some(t) => t.to_string(),
        None => String::new(),
    }
}

/// GET `key`.
pub fn get_command(db: &mut Store, key: &String, now: u128) -> (r: RespMessage)
    requires
        old(db).wf(),
    ensures
        final(db).wf(),
        (final(db)@, r@) == get_spec(old(db)@, key@, now),
{
    let state = match db.get(key) {
        Some(v) => Some((v.is_expired(now), text_reply(&v.value))),
        None => None,
    };
    match state {
        None => RespMessage::BulkString(None),
        Some((true, _)) => {
            db.remove(key);
            RespMessage::BulkString(None)
        },
        Some((false, reply)) => reply,
    }
}

/// INCR (`up`) or DECR `key`.
pub fn adjust_command(db: &mut Store, key: &String, now: u128, up: bool) -> (r: RespMessage)
    requires
        old(db).wf(),
    ensures
        final(db).wf(),
        (final(db)@, r@) == adjust_spec(old(db)@, key@, now, up),
{
    let state = match db.get(key) {
        Some(v) => Some((v.is_expired(now), parse_i64(v.value.as_str().as_bytes()))),
        None => None,
    };
    match state {
        None => error_reply("key does not exist"),
        Some((true, _)) => {
            db.remove(key);
            error_reply("key has expired")
        },
        Some((false, None)) => error_reply("value is not an integer"),
        Some((false, Some(n))) => {
            let m: i64 = if up {
                if n == i64::MAX {
                    return error_reply("increment or decrement would overflow");
                }
                n + 1
            } else {
                if n == i64::MIN {
                    return error_reply("increment or decrement would overflow");
                }
                n - 1
            };
            let payload = decimal_text(m);
            db.set_payload(key, payload);
            RespMessage::Integer(m)
        },
    }
}

/// EXISTS `keys`.
pub fn exists_command(db: &mut Store, keys: &Vec<String>, now: u128) -> (r: RespMessage)
    requires
        old(db).wf(),
    ensures
        final(db).wf(),
        final(db)@ == exists_fold(old(db)@, views(keys@), now).0,
        r@ == Frame::Integer(exists_fold(old(db)@, views(keys@), now).1 as i64),
{
    let mut count: usize = 0;
    let mut i: usize = 0;
    while i < keys.len()
        invariant
            db.wf(),
            i <= keys@.len(),
            count <= i,
            (db@, count as nat) == exists_fold(old(db)@, views(keys@).subrange(0, i as int), now),
        decreases keys@.len() - i,
    {
        let ghost cur = views(keys@).subrange(0, i + 1);
        assert(cur.drop_last() =~= views(keys@).subrange(0, i as int));
        assert(cur.last() == keys@[i as int]@);
        let key = &keys[i];
        let dead = match db.get(key) {
            Some(v) => Some(v.is_expired(now)),
            None => None,
        };
        match dead {
            Some(true) => {
                db.remove(key);
            },
            Some(false) => {
                count = count + 1;
            },
            None => {},
        }
        i = i + 1;
    }
    assert(views(keys@).subrange(0, i as int) =~= views(keys@));
    RespMessage::Integer(count as i64)
}

/// DEL `keys`.
pub fn del_command(db: &mut Store, keys: &Vec<String>) -> (r: RespMessage)
    requires
        old(db).wf(),
    ensures
        final(db).wf(),
        final(db)@ == del_fold(old(db)@, views(keys@)).0,
        r@ == Frame::Integer(del_fold(old(db)@, views(keys@)).1 as i64),
{
    let mut count: usize = 0;
    let mut i: usize = 0;
    while i < keys.len()
        invariant
            db.wf(),
            i <= keys@.len(),
            count <= i,
            (db@, count as nat) == del_fold(old(db)@, views(keys@).subrange(0, i as int)),
        decreases keys@.len() - i,
    {
        let ghost cur = views(keys@).subrange(0, i + 1);
        assert(cur.drop_last() =~= views(keys@).subrange(0, i as int));
        assert(cur.last() == keys@[i as int]@);
        if db.remove(&keys[i]).is_some() {
            count = count + 1;
        }
        i = i + 1;
    }
    assert(views(keys@).subrange(0, i as int) =~= views(keys@));
    RespMessage::Integer(count as i64)
}

/// `items` in reverse order.
fn reversed(items: Vec<String>) -> (r: Vec<String>)
    ensures
        views(r@) == views(items@).reverse(),
{
    let ghost orig = items@;
    let mut rest = items;
    let mut out: Vec<String> = Vec::new();
    while rest.len() > 0
        invariant
            out@.len() <= orig.len(),
            rest@ == orig.subrange(0, orig.len() - out@.len()),
            forall|j: int| 0 <= j < out@.len() ==> #[trigger] out@[j] == orig[orig.len() - 1 - j],
        decreases rest@.len(),
    {
        match rest.pop() {
            Some(x) => {
                out.push(x);
            },
            None => {},
        }
    }
    assert(views(out@) =~= views(orig).reverse());
    out
}

/// LPUSH (`left`) or RPUSH `items` onto the list under `key`.
pub fn push_command(db: &mut Store, key: &String, items: Vec<String>, left: bool, now: u128) -> (r:
    RespMessage)
    requires
        old(db).wf(),
    ensures
        final(db).wf(),
        (final(db)@, r@) == push_spec(old(db)@, key@, views(items@), left, now),
{
    let state = match db.get(key) {
        Some(v) => Some((v.is_expired(now), split(&v.value))),
        None => None,
    };
    let (present, mut old_list) = match state {
        Some((true, _)) => {
            db.remove(key);
            return error_reply("key has expired");
        },
        Some((false, l)) => (true, l),
        None => (false, Vec::new()),
    };
    let ghost old_view = views(old_list@);
    let ghost item_view = views(items@);
    let mut list = if left {
        let mut l = reversed(items);
        let ghost lv = views(l@);
        l.append(&mut old_list);
        assert(views(l@) =~= lv + old_view);
        l
    } else {
        let mut tail = items;
        old_list.append(&mut tail);
        assert(views(old_list@) =~= old_view + item_view);
        old_list
    };
    let payload = join(&list);
    let n = list.len();
    if present {
        db.set_payload(key, payload);
    } else {
        assert(old_view =~= Seq::<Seq<char>>::empty());
        db.insert(key.clone(), ValueWithExpiry { value: payload, expiry: None });
    }
    RespMessage::Integer(n as i64)
}

/// LRANGE `key` `start` `stop`.
pub fn lrange_command(db: &mut Store, key: &String, start: usize, stop: usize, now: u128) -> (r:
    RespMessage)
    requires
        old(db).wf(),
    ensures
        final(db).wf(),
        (final(db)@, r@) == lrange_spec(old(db)@, key@, start as nat, stop as nat, now),
{
    let state = match db.get(key) {
        Some(v) => Some((v.is_expired(now), split(&v.value))),
        None => None,
    };
    match state {
        None => error_reply("key does not exist"),
        Some((true, _)) => {
            db.remove(key);
            error_reply("key has expired")
        },
        Some((false, list)) => {
            let ghost lv = views(list@);
            let end: usize = if stop >= list.len() {
                list.len()
            } else {
                stop + 1
            };
            assert(end == range_end(stop as nat, lv.len()));
            let ghost want = range_of(lv, start as nat, stop as nat).map_values(
                |t: Seq<char>| text_frame(t),
            );
            let mut out: Vec<RespMessage> = Vec::new();
            if start < end {
                let mut j: usize = start;
                while j < end
                    invariant
                        start <= j <= end,
                        end <= list@.len(),
                        lv == views(list@),
                        out@.len() == j - start,
                        forall|t: int|
                            0 <= t < out@.len() ==> (#[trigger] out@[t])@ == text_frame(
                                lv[start + t],
                            ),
                    decreases end - j,
                {
                    let reply = text_reply(&list[j]);
                    assert(lv[j as int] == list@[j as int]@);
                    out.push(reply);
                    j = j + 1;
                }
            }
            proof {
                lemma_frames_of_len(out@);
                assert(frames_of(out@) =~= want);
            }
            RespMessage::Array(out)
        },
    }
}

/// Reads the option pairs of SET from position three on.
pub fn set_options(args: &Vec<RespMessage>, now: u128) -> (r: Result<Option<u128>, String>)
    ensures
        match r {
            Ok(e) => set_opts(frames_of(args@), 3, now, None) == Ok::<Option<u128>, Seq<char>>(e),
            Err(m) => set_opts(frames_of(args@), 3, now, None) == Err::<Option<u128>, Seq<char>>(m@),
        },
{
    let ghost fa = frames_of(args@);
    proof {
        lemma_frames_of_len(args@);
    }
    let mut expiry: Option<u128> = None;
    let mut i: usize = 3;
    while i < args.len()
        invariant
            fa == frames_of(args@),
            fa.len() == args@.len(),
            forall|j: int| 0 <= j < args@.len() ==> #[trigger] fa[j] == args@[j]@,
            3 <= i,
            set_opts(fa, 3, now, None) == set_opts(fa, i as int, now, expiry),
        decreases args@.len() - i,
    {
        let opt = match &args[i] {
            RespMessage::BulkString(Some(b)) => b,
            _ => {
                return Err("invalid option format".to_string());
            },
        };
        if i + 1 >= args.len() {
            return Err("invalid SET arguments".to_string());
        }
        let value: Option<&Vec<u8>> = match &args[i + 1] {
            RespMessage::BulkString(Some(b)) => Some(b),
            _ => None,
        };
        let o = opt.as_slice();
        let e: Option<u128> = if matches_word(o, "EX") {
            match value {
                Some(b) => match parse_u64(b.as_slice()) {
                    Some(secs) => {
                        let ms: u128 = secs as u128 * 1000;
                        if now <= u128::MAX - ms {
                            Some(now + ms)
                        } else {
                            None
                        }
                    },
                    None => None,
                },
                None => None,
            }
        } else if matches_word(o, "PX") {
            match value {
                Some(b) => match parse_u128(b.as_slice()) {
                    Some(ms) => if now <= u128::MAX - ms {
                        Some(now + ms)
                    } else {
                        None
                    },
                    None => None,
                },
                None => None,
            }
        } else if matches_word(o, "EXAT") {
            match value {
                Some(b) => match parse_u64(b.as_slice()) {
                    Some(secs) => Some(secs as u128 * 1000),
                    None => None,
                },
                None => None,
            }
        } else if matches_word(o, "PXAT") {
            match value {
                Some(b) => parse_u128(b.as_slice()),
                None => None,
            }
        } else {
            return Err("syntax error".to_string());
        };
        match e {
            Some(t) => {
                expiry = Some(t);
            },
            None => {
                return Err("invalid expire time".to_string());
            },
        }
        i = i + 2;
    }
    Ok(expiry)
}

proof fn lemma_arg_texts_prefix(a: Seq<Frame>, j: int)
    requires
        0 <= j <= a.len(),
        arg_texts(a.subrange(0, j)) is None,
    ensures
        arg_texts(a) is None,
    decreases a.len() - j,
{
    if j < a.len() {
        assert(a.subrange(0, j + 1).drop_last() =~= a.subrange(0, j));
        lemma_arg_texts_prefix(a, j + 1);
    } else {
        assert(a.subrange(0, j) =~= a);
    }
}

/// The texts of the arguments from position `from` on, when each is text.
pub fn collect_texts(args: &Vec<RespMessage>, from: usize) -> (r: Option<Vec<String>>)
    requires
        from <= args@.len(),
    ensures
        match r {
            Some(v) => arg_texts(frames_of(args@).subrange(from as int, args@.len() as int)) == Some(
                views(v@),
            ),
            None => arg_texts(frames_of(args@).subrange(from as int, args@.len() as int)) is None,
        },
{
    let ghost fa = frames_of(args@);
    proof {
        lemma_frames_of_len(args@);
    }
    let mut out: Vec<String> = Vec::new();
    let mut i: usize = from;
    assert(fa.subrange(from as int, from as int) =~= Seq::<Frame>::empty());
    assert(views(out@) =~= Seq::<Seq<char>>::empty());
    while i < args.len()
        invariant
            from <= i <= args@.len(),
            fa == frames_of(args@),
            fa.len() == args@.len(),
            forall|j: int| 0 <= j < args@.len() ==> #[trigger] fa[j] == args@[j]@,
            arg_texts(fa.subrange(from as int, i as int)) == Some(views(out@)),
        decreases args@.len() - i,
    {
        let ghost cur = fa.subrange(from as int, i + 1);
        assert(cur.drop_last() =~= fa.subrange(from as int, i as int));
        assert(cur.last() == args@[i as int]@);
        match text_of(&args[i]) {
            Some(t) => {
                let ghost prev = views(out@);
                out.push(t);
                assert(views(out@) =~= prev.push(out@.last()@));
            },
            None => {
                proof {
                    lemma_arg_texts_prefix(
                        fa.subrange(from as int, args@.len() as int),
                        i + 1 - from,
                    );
                    assert(fa.subrange(from as int, args@.len() as int).subrange(0, i + 1 - from)
                        =~= cur);
                }
                return None;
            },
        }
        i = i + 1;
    }
    assert(fa.subrange(from as int, i as int) =~= fa.subrange(from as int, args@.len() as int));
    Some(out)
}

/// The key, payload and expiry of each entry, as the snapshot lists them.
pub open spec fn snapshot_rows(s: Seq<(String, String, Option<u128>)>) -> Seq<
    (Seq<char>, Seq<char>, Option<u128>),
> {
    s.map_values(|e: (String, String, Option<u128>)| (e.0@, e.1@, e.2))
}

/// The JSON text that serde_json makes of a list of entries.
pub uninterp spec fn json_of(rows: Seq<(Seq<char>, Seq<char>, Option<u128>)>) -> Seq<char>;

/// Relies on serde_json::to_string: the JSON text of a list of (key, payload,
/// expiry) triples, which depends on the triples alone.
#[verifier::external_body]
fn rows_json(rows: &Vec<(String, String, Option<u128>)>) -> (r: Option<String>)
    ensures
        r matches Some(j) ==> j@ == json_of(snapshot_rows(rows@)),
{
    serde_json::to_string(rows).ok()
}

/// What a request leads to: a reply to send, or a snapshot to write first.
pub enum Outcome {
    Reply(RespMessage),
    /// The store as JSON text; the reply comes from `save_reply` once it is written.
    Save(String),
}

/// The rows of a store's entries, in the order in which it holds them.
pub open spec fn store_rows(db: Store) -> Seq<(Seq<char>, Seq<char>, Option<u128>)> {
    db.entry_seq().map_values(|e: (Seq<char>, crate::value::StoredValue)| (e.0, e.1.payload, e.1.expiry))
}

/// What `handle_array_command` leads to on the request `args`.
pub open spec fn array_outcome(old_db: Store, new_db: Db, args: Seq<Frame>, now: u128, r: Outcome) -> bool {
    if is_save(args) {
        &&& new_db == old_db@
        &&& match r {
            Outcome::Save(j) => j@ == json_of(store_rows(old_db)),
            Outcome::Reply(m) => m@ == err("snapshot could not be encoded"),
        }
    } else {
        r matches Outcome::Reply(m) && (new_db, m@) == command_spec(old_db@, args, now)
    }
}

/// Runs one array request against the store at time `now`.
pub fn handle_array_command(vec: Vec<RespMessage>, db: &mut Store, now: u128) -> (r: Outcome)
    requires
        old(db).wf(),
    ensures
        final(db).wf(),
        array_outcome(*old(db), final(db)@, frames_of(vec@), now, r),
{
    let ghost args = frames_of(vec@);
    proof {
        lemma_frames_of_len(vec@);
    }
    if vec.len() == 0 {
        return Outcome::Reply(error_reply("invalid command format"));
    }
    let name = match &vec[0] {
        RespMessage::BulkString(Some(b)) => b.as_slice(),
        _ => {
            return Outcome::Reply(error_reply("invalid command format"));
        },
    };
    assert(args[0] == vec@[0]@);
    if matches_word(name, "SAVE") {
        let rows = db.snapshot();
        proof {
            assert(snapshot_rows(rows@) =~= store_rows(*db));
        }
        match rows_json(&rows) {
            Some(j) => Outcome::Save(j),
            None => Outcome::Reply(error_reply("snapshot could not be encoded")),
        }
    } else if matches_word(name, "PING") {
        Outcome::Reply(RespMessage::SimpleString("PONG".to_string()))
    } else if matches_word(name, "ECHO") {
        if vec.len() < 2 {
            return Outcome::Reply(error_reply("wrong number of arguments"));
        }
        assert(args[1] == vec@[1]@);
        match &vec[1] {
            RespMessage::BulkString(Some(b)) => Outcome::Reply(
                RespMessage::BulkString(Some(b.clone())),
            ),
            _ => Outcome::Reply(error_reply("invalid ECHO argument")),
        }
    } else if matches_word(name, "SET") {
        if vec.len() < 3 {
            return Outcome::Reply(error_reply("wrong number of arguments"));
        }
        assert(args[1] == vec@[1]@ && args[2] == vec@[2]@);
        let (key, value) = match (text_of(&vec[1]), text_of(&vec[2])) {
            (Some(k), Some(v)) => (k, v),
            _ => {
                return Outcome::Reply(error_reply("invalid SET arguments"));
            },
        };
        match set_options(&vec, now) {
            Ok(expiry) => {
                db.insert(key, ValueWithExpiry { value, expiry });
                Outcome::Reply(RespMessage::SimpleString("OK".to_string()))
            },
            Err(m) => Outcome::Reply(RespMessage::Error(m)),
        }
    } else if matches_word(name, "GET") {
        if vec.len() < 2 {
            return Outcome::Reply(error_reply("wrong number of arguments"));
        }
        assert(args[1] == vec@[1]@);
        match text_of(&vec[1]) {
            Some(k) => Outcome::Reply(get_command(db, &k, now)),
            None => Outcome::Reply(error_reply("invalid GET argument")),
        }
    } else if matches_word(name, "EXISTS") || matches_word(name, "DEL") {
        let is_exists = matches_word(name, "EXISTS");
        if vec.len() < 2 {
            return Outcome::Reply(error_reply("wrong number of arguments"));
        }
        assert(args.drop_first() =~= args.subrange(1, args.len() as int));
        match collect_texts(&vec, 1) {
            Some(keys) => if is_exists {
                Outcome::Reply(exists_command(db, &keys, now))
            } else {
                Outcome::Reply(del_command(db, &keys))
            },
            None => if is_exists {
                Outcome::Reply(error_reply("invalid EXISTS argument"))
            } else {
                Outcome::Reply(error_reply("invalid DEL argument"))
            },
        }
    } else if matches_word(name, "INCR") || matches_word(name, "DECR") {
        let up = matches_word(name, "INCR");
        if vec.len() < 2 {
            return Outcome::Reply(error_reply("wrong number of arguments"));
        }
        assert(args[1] == vec@[1]@);
        match text_of(&vec[1]) {
            Some(k) => Outcome::Reply(adjust_command(db, &k, now, up)),
            None => Outcome::Reply(error_reply("invalid INCR or DECR argument")),
        }
    } else if matches_word(name, "LPUSH") || matches_word(name, "RPUSH") {
        let left = matches_word(name, "LPUSH");
        if vec.len() < 3 {
            return Outcome::Reply(error_reply("wrong number of arguments"));
        }
        assert(args[1] == vec@[1]@);
        match (text_of(&vec[1]), collect_texts(&vec, 2)) {
            (Some(k), Some(items)) => Outcome::Reply(push_command(db, &k, items, left, now)),
            _ => Outcome::Reply(error_reply("invalid LPUSH or RPUSH argument")),
        }
    } else if matches_word(name, "LRANGE") {
        if vec.len() != 4 {
            return Outcome::Reply(error_reply("wrong number of arguments"));
        }
        assert(args[1] == vec@[1]@ && args[2] == vec@[2]@ && args[3] == vec@[3]@);
        let key = text_of(&vec[1]);
        let start = match &vec[2] {
            RespMessage::BulkString(Some(b)) => Some(index_value(b.as_slice())),
            _ => None,
        };
        let stop = match &vec[3] {
            RespMessage::BulkString(Some(b)) => Some(index_value(b.as_slice())),
            _ => None,
        };
        match (key, start, stop) {
            (Some(k), Some(s), Some(t)) => Outcome::Reply(lrange_command(db, &k, s, t, now)),
            _ => Outcome::Reply(error_reply("invalid LRANGE argument")),
        }
    } else {
        Outcome::Reply(error_reply("unknown command"))
    }
}

/// An index argument of LRANGE: its number, or zero when it is none.
fn index_value(b: &[u8]) -> (r: usize)
    ensures
        r as nat == index_arg(b@),
{
    match parse_usize(b) {
        Some(n) => n,
        None => 0,
    }
}

/// The reply to a snapshot request, once the snapshot was (`written`) or could
/// not be written.
pub fn save_reply(written: bool) -> (r: RespMessage)
    ensures
        r@ == (if written {
            Frame::Simple("OK"@)
        } else {
            err("snapshot could not be written")
        }),
{
    if written {
        RespMessage::SimpleString("OK".to_string())
    } else {
        error_reply("snapshot could not be written")
    }
}

/// Runs a status request: PING, in any ASCII case, gets PONG.
pub fn handle_simple_string(cmd: String) -> (r: RespMessage)
    ensures
        r@ == simple_spec(cmd@),
{
    if matches_word(cmd.as_str().as_bytes(), "PING") {
        RespMessage::SimpleString("PONG".to_string())
    } else {
        error_reply("unknown command")
    }
}

/// Decodes one request from `input` and runs it at time `now`. A status line
/// and an array are requests; anything else, and anything that does not
/// decode, is an unknown command.
pub fn handle_request(db: &mut Store, input: &[u8], now: u128) -> (r: Outcome)
    requires
        old(db).wf(),
    ensures
        final(db).wf(),
        match decode_spec(input@) {
            Ok(Frame::Simple(c)) => final(db)@ == old(db)@ && (r matches Outcome::Reply(m) && m@
                == simple_spec(c)),
            Ok(Frame::Array(a)) => array_outcome(*old(db), final(db)@, a, now, r),
            _ => final(db)@ == old(db)@ && (r matches Outcome::Reply(m) && m@ == err(
                "unknown command",
            )),
        },
{
    match parse_resp(input) {
        Ok(RespMessage::SimpleString(cmd)) => Outcome::Reply(handle_simple_string(cmd)),
        Ok(RespMessage::Array(v)) => handle_array_command(v, db, now),
        _ => Outcome::Reply(error_reply("unknown command")),
    }
}

} // verus!
