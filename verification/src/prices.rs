//! Current prices keyed by asset, and the byte order of asset names.

use vstd::prelude::*;
use crate::decimal::Dec;

verus! {

/// Lexicographic order of byte strings (a proper prefix comes first).
pub open spec fn bytes_less(a: Seq<u8>, b: Seq<u8>) -> bool
    decreases a.len(),
{
    if b.len() == 0 {
        false
    } else if a.len() == 0 {
        true
    } else if a[0] < b[0] {
        true
    } else if a[0] > b[0] {
        false
    } else {
        bytes_less(a.drop_first(), b.drop_first())
    }
}

/// `a` sorts before `b` as `String`s do: by their UTF-8 bytes.
pub open spec fn text_less(a: String, b: String) -> bool {
    bytes_less(vstd::utf8::encode_utf8(a@), vstd::utf8::encode_utf8(b@))
}

/// `a < b` on `String`s: lexicographic comparison of the UTF-8 bytes.
pub(crate) fn string_less(a: &String, b: &String) -> (r: bool)
    ensures
        r == text_less(*a, *b),
{
    let x = a.as_str().as_bytes();
    let y = b.as_str().as_bytes();
    let mut i: usize = 0;
    proof {
        assert(x@.skip(0) =~= x@);
        assert(y@.skip(0) =~= y@);
    }
    while i < x.len() && i < y.len() && x[i] == y[i]
        invariant
            i <= x@.len(),
            i <= y@.len(),
            x@ == vstd::utf8::encode_utf8(a@),
            y@ == vstd::utf8::encode_utf8(b@),
            bytes_less(x@, y@) == bytes_less(x@.skip(i as int), y@.skip(i as int)),
        decreases x@.len() - i,
    {
        proof {
            assert(x@.skip(i as int).drop_first() =~= x@.skip(i + 1));
            assert(y@.skip(i as int).drop_first() =~= y@.skip(i + 1));
        }
        i = i + 1;
    }
    if i < y.len() {
        i == x.len() || x[i] < y[i]
    } else {
        false
    }
}

/// The price recorded for `asset` in `entries` (the first entry for it).
pub open spec fn lookup(entries: Seq<(String, Dec)>, asset: Seq<char>) -> Option<Dec>
    decreases entries.len(),
{
    if entries.len() == 0 {
        None
    } else if entries[0].0@ == asset {
        Some(entries[0].1)
    } else {
        lookup(entries.drop_first(), asset)
    }
}

/// Current prices, one per asset.
#[derive(Clone, Debug)]
pub struct PriceTable {
    entries: Vec<(String, Dec)>,
}

impl PriceTable {
    /// The price of an asset, if one is set.
    pub closed spec fn price_spec(&self, asset: Seq<char>) -> Option<Dec> {
        lookup(self.entries@, asset)
    }

    /// An empty table.
    pub fn new() -> (r: PriceTable)
        ensures
            forall|a: Seq<char>| r.price_spec(a) is None,
    {
        PriceTable { entries: Vec::new() }
    }

    /// Set (or replace) the price of `asset`.
    pub fn insert(&mut self, asset: String, price: Dec)
        ensures
            final(self).price_spec(asset@) == Some(price),
            forall|a: Seq<char>| a != asset@ ==> final(self).price_spec(a) == old(self).price_spec(a),
    {
        let mut k: usize = 0;
        while k < self.entries.len()
            invariant
                k <= self.entries@.len(),
                self.entries@ == old(self).entries@,
                forall|m: int| 0 <= m < k ==> (#[trigger] self.entries@[m]).0@ != asset@,
            decreases self.entries@.len() - k,
        {
            if self.entries[k].0 == asset {
                let ghost before = self.entries@;
                self.entries.set(k, (asset, price));
                proof {
                    assert forall|a: Seq<char>| a != asset@ implies self.price_spec(a) == old(self).price_spec(a) by {
                        lemma_lookup_update(before, k as int, asset, price, a);
                    }
                    lemma_lookup_update(before, k as int, asset, price, asset@);
                }
                return;
            }
            k = k + 1;
        }
        let ghost before = self.entries@;
        self.entries.push((asset, price));
        proof {
            assert forall|a: Seq<char>| a != asset@ implies self.price_spec(a) == old(self).price_spec(a) by {
                lemma_lookup_push(before, asset, price, a);
            }
            lemma_lookup_push(before, asset, price, asset@);
        }
    }

    /// The price of `asset`, if one is set.
    pub fn get(&self, asset: &String) -> (r: Option<Dec>)
        ensures
            r == self.price_spec(asset@),
    {
        let mut k: usize = 0;
        proof {
            assert(self.entries@.skip(0) =~= self.entries@);
        }
        while k < self.entries.len()
            invariant
                k <= self.entries@.len(),
                lookup(self.entries@, asset@) == lookup(self.entries@.skip(k as int), asset@),
            decreases self.entries@.len() - k,
        {
            proof {
                assert(self.entries@.skip(k as int).drop_first() =~= self.entries@.skip(k + 1));
            }
            if self.entries[k].0 == *asset {
                return Some(self.entries[k].1);
            }
            k = k + 1;
        }
        None
    }
}

proof fn lemma_lookup_update(entries: Seq<(String, Dec)>, k: int, key: String, price: Dec, a: Seq<char>)
    requires
        0 <= k < entries.len(),
        entries[k].0@ == key@,
        forall|m: int| 0 <= m < k ==> (#[trigger] entries[m]).0@ != key@,
    ensures
        lookup(entries.update(k, (key, price)), a) == if a == key@ {
            Some(price)
        } else {
            lookup(entries, a)
        },
    decreases k,
{
    let upd = entries.update(k, (key, price));
    if k > 0 {
        assert(upd.drop_first() =~= entries.drop_first().update(k - 1, (key, price)));
        assert(entries[0].0@ != key@);
        assert forall|m: int| 0 <= m < k - 1 implies (#[trigger] entries.drop_first()[m]).0@ != key@ by {
            assert(entries.drop_first()[m] == entries[m + 1]);
        }
        lemma_lookup_update(entries.drop_first(), k - 1, key, price, a);
        assert(upd[0] == entries[0]);
    } else {
        assert(upd.drop_first() =~= entries.drop_first());
        assert(upd[0] == (key, price));
    }
}

proof fn lemma_lookup_push(entries: Seq<(String, Dec)>, key: String, price: Dec, a: Seq<char>)
    requires
        forall|m: int| 0 <= m < entries.len() ==> (#[trigger] entries[m]).0@ != key@,
    ensures
        lookup(entries.push((key, price)), a) == if a == key@ {
            Some(price)
        } else {
            lookup(entries, a)
        },
    decreases entries.len(),
{
    let p = entries.push((key, price));
    if entries.len() > 0 {
        assert(p.drop_first() =~= entries.drop_first().push((key, price)));
        assert(entries[0].0@ != key@);
        assert forall|m: int| 0 <= m < entries.len() - 1 implies (#[trigger] entries.drop_first()[m]).0@ != key@ by {
            assert(entries.drop_first()[m] == entries[m + 1]);
        }
        lemma_lookup_push(entries.drop_first(), key, price, a);
        assert(p[0] == entries[0]);
    } else {
        assert(p.drop_first() =~= Seq::<(String, Dec)>::empty());
        assert(lookup(p.drop_first(), a) is None);
        assert(lookup(entries, a) is None);
        assert(p[0] == (key, price));
    }
}

/// Byte-string order is a strict total order.
pub proof fn lemma_bytes_less_order(a: Seq<u8>, b: Seq<u8>, c: Seq<u8>)
    ensures
        !bytes_less(a, a),
        bytes_less(a, b) ==> !bytes_less(b, a),
        bytes_less(a, b) && bytes_less(b, c) ==> bytes_less(a, c),
        a != b ==> bytes_less(a, b) || bytes_less(b, a),
    decreases a.len(),
{
    lemma_bytes_less_irreflexive(a);
    if a.len() > 0 && b.len() > 0 {
        lemma_bytes_less_order(a.drop_first(), b.drop_first(), c);
        if a != b && a[0] == b[0] {
            assert(a =~= seq![a[0]] + a.drop_first());
            assert(b =~= seq![b[0]] + b.drop_first());
        }
        if c.len() > 0 {
            lemma_bytes_less_order(a.drop_first(), b.drop_first(), c.drop_first());
        }
    } else if a.len() == 0 && b.len() == 0 {
        assert(a =~= b);
    }
}

proof fn lemma_bytes_less_irreflexive(a: Seq<u8>)
    ensures
        !bytes_less(a, a),
    decreases a.len(),
{
    if a.len() > 0 {
        lemma_bytes_less_irreflexive(a.drop_first());
    }
}

/// Asset names sort by a strict total order on their text.
pub proof fn lemma_text_less_order(a: String, b: String, c: String)
    ensures
        !text_less(a, a),
        text_less(a, b) ==> !text_less(b, a),
        text_less(a, b) && text_less(b, c) ==> text_less(a, c),
        a@ != b@ ==> text_less(a, b) || text_less(b, a),
{
    let ea = vstd::utf8::encode_utf8(a@);
    let eb = vstd::utf8::encode_utf8(b@);
    let ec = vstd::utf8::encode_utf8(c@);
    lemma_bytes_less_order(ea, eb, ec);
    vstd::utf8::encode_utf8_decode_utf8(a@);
    vstd::utf8::encode_utf8_decode_utf8(b@);
}

} // verus!
