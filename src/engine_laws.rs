use crate::codec_laws::lemma_decimal_plain;
use crate::decimal::{decimal, i64_value, lemma_i64_value_decimal, unsigned_value};
use crate::resp::Frame;
use crate::semantics::{
    adjust_spec, bulk_arg, del_fold, err, exists_fold, expiry_of, get_spec, lrange_spec, push_spec,
    range_end, range_of, set_opts, set_spec, text_arg, text_frame, Db,
};
use crate::text::{is_word, join_commas, split_commas};
use crate::value::{expired, StoredValue};
use vstd::prelude::*;
use vstd::utf8::{decode_utf8, decode_utf8_encode_utf8, encode_utf8};

verus! {

/// SET `k` `v` PX 0 at time `t0` stores `v` under `k` expiring at `t0`; from
/// then on, GET, EXISTS, INCR, DECR, LPUSH, RPUSH and LRANGE on `k` each find
/// it gone and remove it.
pub proof fn law_zero_ttl_expires(
    db: Db,
    args: Seq<Frame>,
    k: Seq<char>,
    v: Seq<char>,
    t0: u128,
    now: u128,
    items: Seq<Seq<char>>,
    start: nat,
    stop: nat,
)
    requires
        args.len() == 5,
        text_arg(args[1]) == Some(k),
        text_arg(args[2]) == Some(v),
        bulk_arg(args[3]) matches Some(o) && is_word(o, "PX"),
        bulk_arg(args[4]) matches Some(z) && unsigned_value(z) == Some(0nat),
        now >= t0,
    ensures
        ({
            let db1 = db.insert(k, StoredValue { payload: v, expiry: Some(t0) });
            let gone = db1.remove(k);
            &&& set_spec(db, args, t0) == (db1, Frame::Simple("OK"@))
            &&& !gone.contains_key(k)
            &&& get_spec(db1, k, now) == (gone, Frame::Bulk(None))
            &&& exists_fold(db1, seq![k], now) == (gone, 0nat)
            &&& adjust_spec(db1, k, now, true) == (gone, err("key has expired"))
            &&& adjust_spec(db1, k, now, false) == (gone, err("key has expired"))
            &&& push_spec(db1, k, items, true, now) == (gone, err("key has expired"))
            &&& push_spec(db1, k, items, false, now) == (gone, err("key has expired"))
            &&& lrange_spec(db1, k, start, stop, now) == (gone, err("key has expired"))
        }),
{
    let o = bulk_arg(args[3]).unwrap();
    assert(expiry_of(o, args[4], t0) == Some(Some(t0)));
    assert(set_opts(args, 5, t0, Some(t0)) == Ok::<Option<u128>, Seq<char>>(Some(t0)));
    assert(set_opts(args, 3, t0, None) == Ok::<Option<u128>, Seq<char>>(Some(t0)));
    let db1 = db.insert(k, StoredValue { payload: v, expiry: Some(t0) });
    assert(seq![k].drop_last() =~= Seq::<Seq<char>>::empty());
    assert(exists_fold(db1, Seq::<Seq<char>>::empty(), now) == (db1, 0nat));
}

/// The text that INCR or DECR stores for `m` reads back as `m`.
pub proof fn lemma_stored_number(m: i64)
    ensures
        i64_value(encode_utf8(decode_utf8(decimal(m as int)))) == Some(m),
{
    lemma_decimal_plain(m as int);
    decode_utf8_encode_utf8(decimal(m as int));
    lemma_i64_value_decimal(m);
}

/// On a live entry that reads as `n`, INCR answers `n + 1`, and DECR after it
/// answers `n` again; the entry keeps its expiry and is left reading `n`.
pub proof fn law_incr_then_decr(db: Db, k: Seq<char>, now: u128, n: i64)
    requires
        db.contains_key(k),
        !expired(db[k], now),
        i64_value(encode_utf8(db[k].payload)) == Some(n),
        n < i64::MAX,
    ensures
        ({
            let (db1, r1) = adjust_spec(db, k, now, true);
            let (db2, r2) = adjust_spec(db1, k, now, false);
            &&& r1 == Frame::Integer((n + 1) as i64)
            &&& r2 == Frame::Integer(n)
            &&& db2.contains_key(k)
            &&& db2[k].expiry == db[k].expiry
            &&& i64_value(encode_utf8(db2[k].payload)) == Some(n)
            &&& db2.remove(k) == db.remove(k)
        }),
{
    lemma_stored_number((n + 1) as i64);
    lemma_stored_number(n);
    let (db1, r1) = adjust_spec(db, k, now, true);
    let (db2, r2) = adjust_spec(db1, k, now, false);
    assert(db2.remove(k) =~= db.remove(k));
}

/// INCR applied `count` times to `k` at time `now`: the store after the last
/// one and the last reply.
pub open spec fn incr_times(db: Db, k: Seq<char>, now: u128, count: nat) -> (Db, Frame)
    decreases count,
{
    if count == 0 {
        (db, Frame::Integer(0))
    } else {
        adjust_spec(incr_times(db, k, now, (count - 1) as nat).0, k, now, true)
    }
}

/// However many INCRs run on a live entry that reads as 0, one after the
/// other as the store's exclusive access orders them, none is lost: after
/// `count` of them the entry reads `count`, and the last one answered `count`.
pub proof fn law_increments_add_up(db: Db, k: Seq<char>, now: u128, count: nat)
    requires
        db.contains_key(k),
        !expired(db[k], now),
        i64_value(encode_utf8(db[k].payload)) == Some(0i64),
        count <= i64::MAX,
    ensures
        ({
            let (d, r) = incr_times(db, k, now, count);
            &&& d.contains_key(k)
            &&& d[k].expiry == db[k].expiry
            &&& i64_value(encode_utf8(d[k].payload)) == Some(count as i64)
            &&& r == Frame::Integer(count as i64)
        }),
    decreases count,
{
    if count > 0 {
        law_increments_add_up(db, k, now, (count - 1) as nat);
        lemma_stored_number(count as i64);
    }
}

/// Pushing onto a key that holds nothing: RPUSH answers the number of items
/// and LRANGE 0 to the last index gives them back in order; LPUSH gives them
/// back in reverse order. Items must hold no comma, which the list text uses
/// between items.
pub proof fn law_push_then_range(db: Db, k: Seq<char>, items: Seq<Seq<char>>, now: u128)
    requires
        !db.contains_key(k),
        items.len() > 0,
        items.len() <= i64::MAX,
        forall|i: int| 0 <= i < items.len() ==> !(#[trigger] items[i]).contains(','),
    ensures
        ({
            let (d1, r1) = push_spec(db, k, items, false, now);
            let (d2, r2) = push_spec(db, k, items, true, now);
            let last = (items.len() - 1) as nat;
            &&& r1 == Frame::Integer(items.len() as i64)
            &&& r2 == Frame::Integer(items.len() as i64)
            &&& lrange_spec(d1, k, 0, last, now) == (d1, Frame::Array(
                items.map_values(|t: Seq<char>| text_frame(t)),
            ))
            &&& lrange_spec(d2, k, 0, last, now) == (d2, Frame::Array(
                items.reverse().map_values(|t: Seq<char>| text_frame(t)),
            ))
        }),
{
    let empty = Seq::<Seq<char>>::empty();
    assert(empty + items =~= items);
    assert(items.reverse() + empty =~= items.reverse());
    lemma_split_join(items);
    let rev = items.reverse();
    assert forall|i: int| 0 <= i < rev.len() implies !(#[trigger] rev[i]).contains(',') by {
        assert(rev[i] == items[items.len() - 1 - i]);
    }
    lemma_split_join(rev);
    let last = (items.len() - 1) as nat;
    assert(range_end(last, items.len()) == items.len());
    assert(items.subrange(0, items.len() as int) =~= items);
    assert(rev.subrange(0, rev.len() as int) =~= rev);
    assert(range_of(items, 0, last) == items);
    assert(range_of(rev, 0, last) == rev);
}

proof fn lemma_split_no_comma(s: Seq<char>, t: Seq<char>)
    requires
        !t.contains(','),
    ensures
        split_commas(s + t) == split_commas(s).update(
            split_commas(s).len() - 1,
            split_commas(s).last() + t,
        ),
        split_commas(s + t).len() == split_commas(s).len(),
    decreases t.len(),
{
    crate::text::lemma_split_len(s);
    if t.len() == 0 {
        assert(s + t =~= s);
        assert(split_commas(s).last() + t =~= split_commas(s).last());
        assert(split_commas(s).update(split_commas(s).len() - 1, split_commas(s).last())
            =~= split_commas(s));
    } else {
        let t0 = t.drop_last();
        assert(!t0.contains(',')) by {
            if t0.contains(',') {
                let i = choose|i: int| 0 <= i < t0.len() && t0[i] == ',';
                assert(t[i] == ',');
            }
        }
        lemma_split_no_comma(s, t0);
        assert((s + t).drop_last() =~= s + t0);
        assert((s + t).last() == t.last());
        assert(t.last() != ',') by {
            assert(t[t.len() - 1] == t.last());
        }
        assert(split_commas(s).last() + t =~= (split_commas(s).last() + t0).push(t.last()));
        assert(split_commas(s + t) =~= split_commas(s).update(
            split_commas(s).len() - 1,
            split_commas(s).last() + t,
        ));
    }
}

/// Splitting the text of a list of comma-free items gives the items back.
pub proof fn lemma_split_join(l: Seq<Seq<char>>)
    requires
        l.len() > 0,
        forall|i: int| 0 <= i < l.len() ==> !(#[trigger] l[i]).contains(','),
    ensures
        split_commas(join_commas(l)) == l,
    decreases l.len(),
{
    if l.len() == 1 {
        let e = Seq::<char>::empty();
        lemma_split_no_comma(e, l[0]);
        assert(e + l[0] =~= l[0]);
        assert(split_commas(e) =~= seq![e]);
        assert(seq![e].update(0, e + l[0]) =~= l);
    } else {
        let init = l.drop_last();
        lemma_split_join(init);
        let j = join_commas(init);
        let jc = j + seq![','];
        assert(jc.drop_last() =~= j);
        assert(split_commas(jc) == split_commas(j).push(Seq::empty()));
        assert(!l.last().contains(',')) by {
            assert(l[l.len() - 1] == l.last());
        }
        lemma_split_no_comma(jc, l.last());
        assert(Seq::<char>::empty() + l.last() =~= l.last());
        assert(split_commas(jc + l.last()) =~= l);
    }
}

/// EXISTS and DEL count alike over distinct keys of which none has expired:
/// EXISTS then leaves the store as it is, and after the DEL an EXISTS on the
/// same keys finds none of them.
pub proof fn law_exists_del(db: Db, ks: Seq<Seq<char>>, now: u128)
    requires
        ks.no_duplicates(),
        forall|i: int| 0 <= i < ks.len() && db.contains_key(#[trigger] ks[i]) ==> !expired(db[ks[i]], now),
    ensures
        exists_fold(db, ks, now) == (db, del_fold(db, ks).1),
        exists_fold(del_fold(db, ks).0, ks, now) == (del_fold(db, ks).0, 0nat),
{
    lemma_exists_counts(db, ks, now);
    lemma_del_removes(db, ks);
    lemma_exists_absent(del_fold(db, ks).0, ks, now);
}

proof fn lemma_del_removes(db: Db, ks: Seq<Seq<char>>)
    ensures
        forall|k: Seq<char>| ks.contains(k) ==> !(#[trigger] del_fold(db, ks).0.contains_key(k)),
        forall|k: Seq<char>| !ks.contains(k) ==> (#[trigger] del_fold(db, ks).0.contains_key(k)
            == db.contains_key(k)),
    decreases ks.len(),
{
    if ks.len() > 0 {
        let init = ks.drop_last();
        lemma_del_removes(db, init);
        assert forall|k: Seq<char>| ks.contains(k) && k != ks.last() implies init.contains(k) by {
            let i = choose|i: int| 0 <= i < ks.len() && ks[i] == k;
            assert(i != ks.len() - 1);
            assert(init[i] == k);
        }
        assert forall|k: Seq<char>| init.contains(k) implies ks.contains(k) by {
            let i = choose|i: int| 0 <= i < init.len() && init[i] == k;
            assert(ks[i] == k);
        }
        assert(ks.contains(ks.last())) by {
            assert(ks[ks.len() - 1] == ks.last());
        }
        let d = del_fold(db, init).0;
        let r = del_fold(db, ks).0;
        assert(r == if d.contains_key(ks.last()) {
            d.remove(ks.last())
        } else {
            d
        });
        assert forall|k: Seq<char>| ks.contains(k) implies !(#[trigger] r.contains_key(k)) by {
            if k != ks.last() {
                assert(init.contains(k));
            }
        }
        assert forall|k: Seq<char>| !ks.contains(k) implies (#[trigger] r.contains_key(k)
            == db.contains_key(k)) by {
            if init.contains(k) {
                let i = choose|i: int| 0 <= i < init.len() && init[i] == k;
                assert(ks[i] == k);
            }
            assert(k != ks.last());
        }
    }
}

proof fn lemma_exists_counts(db: Db, ks: Seq<Seq<char>>, now: u128)
    requires
        ks.no_duplicates(),
        forall|i: int| 0 <= i < ks.len() && db.contains_key(#[trigger] ks[i]) ==> !expired(db[ks[i]], now),
    ensures
        exists_fold(db, ks, now) == (db, del_fold(db, ks).1),
    decreases ks.len(),
{
    if ks.len() > 0 {
        let init = ks.drop_last();
        let k = ks.last();
        assert forall|i: int| 0 <= i < init.len() && db.contains_key(#[trigger] init[i]) implies !expired(
            db[init[i]],
            now,
        ) by {
            assert(ks[i] == init[i]);
        }
        assert(init.no_duplicates()) by {
            assert forall|i: int, j: int| 0 <= i < init.len() && 0 <= j < init.len() && i != j implies init[i]
                != init[j] by {
                assert(ks[i] == init[i] && ks[j] == init[j]);
            }
        }
        lemma_exists_counts(db, init, now);
        lemma_del_removes(db, init);
        assert(!init.contains(k)) by {
            if init.contains(k) {
                let i = choose|i: int| 0 <= i < init.len() && init[i] == k;
                assert(ks[i] == ks[ks.len() - 1]);
            }
        }
        assert(ks[ks.len() - 1] == k);
    }
}

proof fn lemma_exists_absent(db: Db, ks: Seq<Seq<char>>, now: u128)
    requires
        forall|k: Seq<char>| ks.contains(k) ==> !db.contains_key(k),
    ensures
        exists_fold(db, ks, now) == (db, 0nat),
    decreases ks.len(),
{
    if ks.len() > 0 {
        let init = ks.drop_last();
        assert forall|k: Seq<char>| init.contains(k) implies !db.contains_key(k) by {
            let i = choose|i: int| 0 <= i < init.len() && init[i] == k;
            assert(ks[i] == k);
            assert(ks.contains(k));
        }
        lemma_exists_absent(db, init, now);
        assert(ks.contains(ks.last())) by {
            assert(ks[ks.len() - 1] == ks.last());
        }
    }
}

} // verus!
