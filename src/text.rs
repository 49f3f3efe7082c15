use vstd::prelude::*;
use vstd::string::{StrSliceExecFns, StringExecFns};
use vstd::utf8::encode_utf8;

verus! {

/// An ASCII lower-case letter made upper case; any other byte unchanged.
pub open spec fn upper_byte(b: u8) -> u8 {
    if 97 <= b <= 122 {
        (b - 32) as u8
    } else {
        b
    }
}

pub open spec fn upper(s: Seq<u8>) -> Seq<u8> {
    s.map_values(|b: u8| upper_byte(b))
}

/// Whether `b`, read without regard to ASCII case, is the word `word`.
pub open spec fn is_word(b: Seq<u8>, word: &str) -> bool {
    upper(b) == encode_utf8(word@)
}

/// Whether `b` spells `word` when ASCII letters are taken as upper case.
pub fn matches_word(b: &[u8], word: &str) -> (r: bool)
    ensures
        r == is_word(b@, word),
{
    let w = word.as_bytes();
    if b.len() != w.len() {
        assert(upper(b@).len() != encode_utf8(word@).len());
        return false;
    }
    let mut i: usize = 0;
    while i < b.len()
        invariant
            i <= b@.len(),
            b@.len() == w@.len(),
            w@ == encode_utf8(word@),
            forall|j: int| 0 <= j < i ==> upper_byte(#[trigger] b@[j]) == w@[j],
        decreases b@.len() - i,
    {
        let c = b[i];
        let u: u8 = if 97 <= c && c <= 122 { c - 32 } else { c };
        if u != w[i] {
            assert(upper(b@)[i as int] != w@[i as int]);
            return false;
        }
        i = i + 1;
    }
    assert(upper(b@) =~= w@);
    true
}

/// The comma-separated pieces of `s`; text without a comma is one piece.
pub open spec fn split_commas(s: Seq<char>) -> Seq<Seq<char>>
    decreases s.len(),
{
    if s.len() == 0 {
        seq![Seq::empty()]
    } else {
        let p = split_commas(s.drop_last());
        if s.last() == ',' {
            p.push(Seq::empty())
        } else {
            p.update(p.len() - 1, p.last().push(s.last()))
        }
    }
}

/// The pieces of `l` with a comma between each two.
pub open spec fn join_commas(l: Seq<Seq<char>>) -> Seq<char>
    decreases l.len(),
{
    if l.len() == 0 {
        Seq::empty()
    } else if l.len() == 1 {
        l[0]
    } else {
        join_commas(l.drop_last()) + seq![','] + l.last()
    }
}

pub open spec fn views(v: Seq<String>) -> Seq<Seq<char>> {
    v.map_values(|s: String| s@)
}

pub proof fn lemma_split_len(s: Seq<char>)
    ensures
        split_commas(s).len() >= 1,
    decreases s.len(),
{
    if s.len() > 0 {
        lemma_split_len(s.drop_last());
    }
}

/// Splits `s` at its commas.
pub fn split(s: &String) -> (r: Vec<String>)
    ensures
        views(r@) == split_commas(s@),
{
    let t = s.as_str();
    let n = t.unicode_len();
    let mut pieces: Vec<String> = Vec::new();
    let mut start: usize = 0;
    let mut i: usize = 0;
    assert(s@.subrange(0, 0) =~= Seq::<char>::empty());
    assert(views(pieces@).push(s@.subrange(0, 0)) =~= seq![Seq::<char>::empty()]);
    while i < n
        invariant
            n == s@.len(),
            t@ == s@,
            start <= i <= n,
            split_commas(s@.subrange(0, i as int)) == views(pieces@).push(
                s@.subrange(start as int, i as int),
            ),
        decreases n - i,
    {
        let c = t.get_char(i);
        let ghost before = s@.subrange(0, i as int);
        let ghost after = s@.subrange(0, i + 1);
        assert(after.drop_last() =~= before);
        assert(after.last() == c);
        if c == ',' {
            let piece = t.substring_char(start, i).to_string();
            let ghost prev = views(pieces@);
            let ghost pv = piece@;
            pieces.push(piece);
            assert(views(pieces@) =~= prev.push(pv));
            start = i + 1;
            assert(s@.subrange(start as int, i + 1) =~= Seq::<char>::empty());
            assert(split_commas(after) =~= views(pieces@).push(s@.subrange(start as int, i + 1)));
        } else {
            assert(s@.subrange(start as int, i + 1) =~= s@.subrange(start as int, i as int).push(c));
            assert(split_commas(after) =~= views(pieces@).push(s@.subrange(start as int, i + 1)));
        }
        i = i + 1;
    }
    let last = t.substring_char(start, n).to_string();
    let ghost prev = views(pieces@);
    pieces.push(last);
    assert(views(pieces@) =~= prev.push(last@));
    assert(s@.subrange(0, n as int) =~= s@);
    pieces
}

/// Joins `items` with a comma between each two.
pub fn join(items: &Vec<String>) -> (r: String)
    ensures
        r@ == join_commas(views(items@)),
{
    let mut out = String::from_str("");
    proof {
        reveal_strlit("");
        reveal_strlit(",");
    }
    let mut i: usize = 0;
    while i < items.len()
        invariant
            i <= items@.len(),
            out@ == join_commas(views(items@.subrange(0, i as int))),
            ","@ == seq![','],
        decreases items@.len() - i,
    {
        let ghost cur = views(items@.subrange(0, i + 1));
        assert(cur.drop_last() =~= views(items@.subrange(0, i as int)));
        assert(cur.last() == items@[i as int]@);
        if i > 0 {
            out.append(",");
        } else {
            assert(out@ =~= Seq::<char>::empty());
        }
        out.append(items[i].as_str());
        if i == 0 {
            assert(out@ =~= cur[0]);
        }
        i = i + 1;
    }
    assert(items@.subrange(0, i as int) =~= items@);
    out
}

} // verus!
