//! Codebooks as mathematical tables, what encoding and decoding through
//! them mean, and the facts that make decoding undo encoding.

use vstd::prelude::*;
use vstd::string::{StrSliceExecFns, StringExecFns};
use crate::HuffmanError;
use crate::tree::HuffmanTree;

verus! {

/// A codebook read as a table of (symbol, codeword) entries, in order.
pub open spec fn table_of(codes: Seq<(char, String)>) -> Seq<(char, Seq<char>)> {
    codes.map_values(|e: (char, String)| (e.0, e.1@))
}

/// Index of the first entry of `t` whose symbol is `c`.
pub open spec fn lookup(t: Seq<(char, Seq<char>)>, c: char) -> Option<int>
    decreases t.len(),
{
    if t.len() == 0 {
        None
    } else {
        match lookup(t.drop_last(), c) {
            Some(i) => Some(i),
            None => if t.last().0 == c { Some(t.len() - 1) } else { None },
        }
    }
}

/// A codeword `w` can be read off the front of `bits`.
pub open spec fn matches_at(w: Seq<char>, bits: Seq<char>) -> bool {
    w.len() > 0 && w.is_prefix_of(bits)
}

/// Index of the first entry of `t` whose codeword can be read off `bits`.
pub open spec fn first_match(t: Seq<(char, Seq<char>)>, bits: Seq<char>) -> Option<int>
    decreases t.len(),
{
    if t.len() == 0 {
        None
    } else {
        match first_match(t.drop_last(), bits) {
            Some(i) => Some(i),
            None => if matches_at(t.last().1, bits) { Some(t.len() - 1) } else { None },
        }
    }
}

/// The concatenated codewords of the symbols of `s`; `None` if one of them
/// has no entry.
pub open spec fn encode_spec(t: Seq<(char, Seq<char>)>, s: Seq<char>) -> Option<Seq<char>>
    decreases s.len(),
{
    if s.len() == 0 {
        Some(Seq::empty())
    } else {
        match (lookup(t, s[0]), encode_spec(t, s.drop_first())) {
            (Some(i), Some(r)) => Some(t[i].1 + r),
            _ => None,
        }
    }
}

/// Reading `bits` from the front, each time through the first entry whose
/// codeword matches; `None` if at some point none does.
pub open spec fn decode_spec(t: Seq<(char, Seq<char>)>, bits: Seq<char>) -> Option<Seq<char>>
    decreases bits.len(),
{
    if bits.len() == 0 {
        Some(Seq::empty())
    } else {
        match first_match(t, bits) {
            Some(i) => if 0 <= i < t.len() && matches_at(t[i].1, bits) {
                match decode_spec(t, bits.skip(t[i].1.len() as int)) {
                    Some(r) => Some(seq![t[i].0] + r),
                    None => None,
                }
            } else {
                None
            },
            None => None,
        }
    }
}

/// No codeword is a prefix of another entry's codeword.
pub open spec fn prefix_free(t: Seq<(char, Seq<char>)>) -> bool {
    forall|i: int, j: int|
        0 <= i < t.len() && 0 <= j < t.len() && i != j ==> !(#[trigger] t[i]).1.is_prefix_of(
            (#[trigger] t[j]).1,
        )
}

/// Every codeword is a non-empty string over `'0'` and `'1'`.
pub open spec fn words_valid(t: Seq<(char, Seq<char>)>) -> bool {
    forall|i: int|
        0 <= i < t.len() ==> (#[trigger] t[i]).1.len() > 0 && forall|k: int|
            0 <= k < t[i].1.len() ==> (t[i].1[k] == '0' || t[i].1[k] == '1')
}

/// No two entries share a symbol.
pub open spec fn keys_unique(t: Seq<(char, Seq<char>)>) -> bool {
    forall|i: int, j: int|
        0 <= i < t.len() && 0 <= j < t.len() && i != j ==> (#[trigger] t[i]).0 != (#[trigger] t[j]).0
}

/// `t` is a codebook for the symbols of `s`: one entry for each, and no
/// other; codewords non-empty, over `'0'` and `'1'`, and prefix-free.
pub open spec fn is_code_for(t: Seq<(char, Seq<char>)>, s: Seq<char>) -> bool {
    &&& prefix_free(t)
    &&& words_valid(t)
    &&& keys_unique(t)
    &&& forall|c: char| s.contains(c) <==> #[trigger] lookup(t, c) is Some
}

/// The codeword that `t` gives `c`: that of its first entry for `c`.
pub open spec fn table_get(t: Seq<(char, Seq<char>)>, c: char) -> Option<Seq<char>> {
    match lookup(t, c) {
        Some(i) => Some(t[i].1),
        None => None,
    }
}

/// `t` with `e` recorded: the entry for its symbol replaced, or `e` added
/// at the end if there is none.
pub open spec fn insert_entry(t: Seq<(char, Seq<char>)>, e: (char, Seq<char>)) -> Seq<(char, Seq<char>)> {
    match lookup(t, e.0) {
        Some(i) => t.update(i, e),
        None => t.push(e),
    }
}

/// `t` with the entries of `es` recorded one after another.
pub open spec fn insert_all(t: Seq<(char, Seq<char>)>, es: Seq<(char, Seq<char>)>) -> Seq<(char, Seq<char>)>
    decreases es.len(),
{
    if es.len() == 0 {
        t
    } else {
        insert_entry(insert_all(t, es.drop_last()), es.last())
    }
}

/// Recording an entry gives its symbol the new codeword and leaves every
/// other symbol's codeword as it was.
pub proof fn lemma_insert_entry(t: Seq<(char, Seq<char>)>, e: (char, Seq<char>))
    ensures
        forall|c: char| #[trigger] table_get(insert_entry(t, e), c) == if c == e.0 {
            Some(e.1)
        } else {
            table_get(t, c)
        },
        keys_unique(t) ==> keys_unique(insert_entry(t, e)),
{
    let r = insert_entry(t, e);
    lemma_lookup(t, e.0);
    assert forall|c: char| #[trigger] table_get(r, c) == if c == e.0 { Some(e.1) } else { table_get(t, c) } by {
        lemma_lookup(t, c);
        lemma_lookup(r, c);
        if let Some(i) = lookup(t, e.0) {
            assert(r == t.update(i, e));
            assert(forall|k: int| 0 <= k < t.len() ==> (#[trigger] r[k]).0 == t[k].0);
            assert(forall|k: int| 0 <= k < t.len() && k != i ==> #[trigger] r[k] == t[k]);
            if let Some(x) = lookup(t, c) {
                assert(r[x].0 == c);
                let y = lookup(r, c).unwrap();
                assert(t[y].0 == c);
                assert(x == y);
            } else {
                assert(lookup(r, c) is None);
            }
        } else {
            assert(r == t.push(e));
            assert(forall|k: int| 0 <= k < t.len() ==> #[trigger] r[k] == t[k]);
            assert(r[t.len() as int] == e);
            if let Some(x) = lookup(t, c) {
                assert(r[x] == t[x]);
                let y = lookup(r, c).unwrap();
                assert(x == y);
            } else if c == e.0 {
                let y = lookup(r, c).unwrap();
                assert(y == t.len());
            } else {
                assert(lookup(r, c) is None);
            }
        }
    }
    if keys_unique(t) {
        if let Some(i) = lookup(t, e.0) {
            assert(forall|k: int| 0 <= k < t.len() ==> (#[trigger] r[k]).0 == t[k].0);
        } else {
            assert(forall|k: int| 0 <= k < t.len() ==> #[trigger] r[k] == t[k]);
            assert(r[t.len() as int] == e);
        }
    }
}

/// What recording several entries leaves: a symbol that none of them names
/// keeps its codeword; where they name each symbol once, each gets the
/// codeword of its entry.
pub proof fn lemma_insert_all(t: Seq<(char, Seq<char>)>, es: Seq<(char, Seq<char>)>)
    ensures
        forall|c: char|
            (forall|k: int| 0 <= k < es.len() ==> (#[trigger] es[k]).0 != c) ==> #[trigger] table_get(
                insert_all(t, es),
                c,
            ) == table_get(t, c),
        keys_unique(es) ==> forall|k: int|
            0 <= k < es.len() ==> table_get(insert_all(t, es), (#[trigger] es[k]).0) == Some(es[k].1),
        keys_unique(t) ==> keys_unique(insert_all(t, es)),
    decreases es.len(),
{
    if es.len() > 0 {
        let d = es.drop_last();
        lemma_insert_all(t, d);
        lemma_insert_entry(insert_all(t, d), es.last());
        assert(forall|k: int| 0 <= k < d.len() ==> #[trigger] d[k] == es[k]);
        assert forall|c: char|
            (forall|k: int| 0 <= k < es.len() ==> (#[trigger] es[k]).0 != c) implies #[trigger] table_get(
                insert_all(t, es),
                c,
            ) == table_get(t, c) by {
            assert(es[es.len() - 1].0 != c);
            assert forall|k: int| 0 <= k < d.len() implies (#[trigger] d[k]).0 != c by {
                assert(es[k].0 != c);
            }
        }
        if keys_unique(es) {
            assert(keys_unique(d));
            assert forall|k: int| 0 <= k < es.len() implies table_get(insert_all(t, es), (#[trigger] es[k]).0)
                == Some(es[k].1) by {
                if k < es.len() - 1 {
                    assert(es[k].0 != es[es.len() - 1].0);
                    assert(d[k] == es[k]);
                }
            }
        }
    }
}

/// Recording `a` and then `b` is recording `a + b`.
pub proof fn lemma_insert_all_append(
    t: Seq<(char, Seq<char>)>,
    a: Seq<(char, Seq<char>)>,
    b: Seq<(char, Seq<char>)>,
)
    ensures
        insert_all(t, a + b) == insert_all(insert_all(t, a), b),
    decreases b.len(),
{
    if b.len() == 0 {
        assert(a + b =~= a);
    } else {
        assert((a + b).drop_last() =~= a + b.drop_last());
        assert((a + b).last() == b.last());
        lemma_insert_all_append(t, a, b.drop_last());
    }
}

/// Recording entries with distinct symbols into an empty table gives them
/// back in order.
pub proof fn lemma_insert_all_empty(es: Seq<(char, Seq<char>)>)
    requires
        keys_unique(es),
    ensures
        insert_all(Seq::empty(), es) == es,
    decreases es.len(),
{
    if es.len() > 0 {
        let d = es.drop_last();
        assert(keys_unique(d));
        lemma_insert_all_empty(d);
        lemma_lookup(d, es.last().0);
        if let Some(i) = lookup(d, es.last().0) {
            assert(d[i] == es[i]);
        }
        assert(d.push(es.last()) =~= es);
    }
}

pub proof fn lemma_lookup(t: Seq<(char, Seq<char>)>, c: char)
    ensures
        match lookup(t, c) {
            Some(i) => 0 <= i < t.len() && t[i].0 == c && forall|j: int|
                0 <= j < i ==> (#[trigger] t[j]).0 != c,
            None => forall|j: int| 0 <= j < t.len() ==> (#[trigger] t[j]).0 != c,
        },
    decreases t.len(),
{
    if t.len() > 0 {
        lemma_lookup(t.drop_last(), c);
        assert(forall|j: int| 0 <= j < t.len() - 1 ==> t.drop_last()[j] == t[j]);
    }
}

pub proof fn lemma_first_match(t: Seq<(char, Seq<char>)>, bits: Seq<char>)
    ensures
        match first_match(t, bits) {
            Some(i) => 0 <= i < t.len() && matches_at(t[i].1, bits) && forall|j: int|
                0 <= j < i ==> !matches_at((#[trigger] t[j]).1, bits),
            None => forall|j: int| 0 <= j < t.len() ==> !matches_at((#[trigger] t[j]).1, bits),
        },
    decreases t.len(),
{
    if t.len() > 0 {
        lemma_first_match(t.drop_last(), bits);
        assert(forall|j: int| 0 <= j < t.len() - 1 ==> t.drop_last()[j] == t[j]);
    }
}

/// Encoding one more symbol appends its codeword.
pub proof fn lemma_encode_push(t: Seq<(char, Seq<char>)>, s: Seq<char>, c: char)
    ensures
        encode_spec(t, s.push(c)) == match (encode_spec(t, s), lookup(t, c)) {
            (Some(r), Some(i)) => Some(r + t[i].1),
            _ => None::<Seq<char>>,
        },
    decreases s.len(),
{
    if s.len() == 0 {
        assert(s.push(c).drop_first() =~= s);
        assert(t[0].1 + Seq::<char>::empty() =~= t[0].1);
        if let Some(i) = lookup(t, c) {
            assert(t[i].1 + Seq::<char>::empty() =~= t[i].1);
            assert(Seq::<char>::empty() + t[i].1 =~= t[i].1);
        }
    } else {
        assert(s.push(c).drop_first() =~= s.drop_first().push(c));
        lemma_encode_push(t, s.drop_first(), c);
        if let (Some(a), Some(r), Some(i)) = (
            lookup(t, s[0]),
            encode_spec(t, s.drop_first()),
            lookup(t, c),
        ) {
            assert(t[a].1 + (r + t[i].1) =~= (t[a].1 + r) + t[i].1);
        }
    }
}

/// Two prefixes of one sequence: the shorter is a prefix of the longer.
proof fn lemma_prefixes_nest(a: Seq<char>, b: Seq<char>, x: Seq<char>)
    requires
        a.is_prefix_of(x),
        b.is_prefix_of(x),
        a.len() <= b.len(),
    ensures
        a.is_prefix_of(b),
{
    assert(a =~= b.subrange(0, a.len() as int));
}

/// Through a prefix-free table of non-empty codewords, decoding what
/// encoding produced gives back the symbols.
pub proof fn lemma_decode_encode(t: Seq<(char, Seq<char>)>, s: Seq<char>)
    requires
        prefix_free(t),
        forall|i: int| 0 <= i < t.len() ==> (#[trigger] t[i]).1.len() > 0,
        encode_spec(t, s) is Some,
    ensures
        decode_spec(t, encode_spec(t, s).unwrap()) == Some(s),
    decreases s.len(),
{
    if s.len() == 0 {
        assert(s =~= Seq::<char>::empty());
    } else {
        let i = lookup(t, s[0]).unwrap();
        let rest = encode_spec(t, s.drop_first()).unwrap();
        let bits = encode_spec(t, s).unwrap();
        lemma_lookup(t, s[0]);
        lemma_first_match(t, bits);
        assert(bits == t[i].1 + rest);
        assert(t[i].1.is_prefix_of(bits)) by {
            assert(t[i].1 =~= bits.subrange(0, t[i].1.len() as int));
        }
        assert(matches_at(t[i].1, bits));
        let k = first_match(t, bits).unwrap();
        if k != i {
            if k < i {
                if t[k].1.len() <= t[i].1.len() {
                    lemma_prefixes_nest(t[k].1, t[i].1, bits);
                } else {
                    lemma_prefixes_nest(t[i].1, t[k].1, bits);
                }
            }
        }
        assert(k == i);
        assert(bits.skip(t[i].1.len() as int) =~= rest);
        lemma_decode_encode(t, s.drop_first());
        assert(seq![t[i].0] + s.drop_first() =~= s);
    }
}

/// Whether every symbol of `s` has an entry, which is when encoding succeeds.
pub proof fn lemma_encode_defined(t: Seq<(char, Seq<char>)>, s: Seq<char>)
    ensures
        encode_spec(t, s) is Some <==> forall|k: int| 0 <= k < s.len() ==> lookup(t, #[trigger] s[k]) is Some,
    decreases s.len(),
{
    if s.len() > 0 {
        lemma_encode_defined(t, s.drop_first());
        assert(forall|k: int| 0 < k < s.len() ==> s.drop_first()[k - 1] == s[k]);
        if forall|k: int| 0 <= k < s.drop_first().len() ==> lookup(t, #[trigger] s.drop_first()[k]) is Some {
            assert forall|k: int| 1 <= k < s.len() implies lookup(t, #[trigger] s[k]) is Some by {
                assert(s.drop_first()[k - 1] == s[k]);
            }
        }
    }
}

/// The characters of `s`, in order.
pub(crate) fn chars_of(s: &str) -> (r: Vec<char>)
    ensures
        r@ == s@,
{
    let n: usize = s.unicode_len();
    let mut r: Vec<char> = Vec::new();
    let mut i: usize = 0;
    while i < n
        invariant
            n == s@.len(),
            i <= n,
            r@ == s@.subrange(0, i as int),
        decreases n - i,
    {
        r.push(s.get_char(i));
        i = i + 1;
    }
    assert(r@ =~= s@);
    r
}

/// Relies on `String::push`: the character is appended at the end.
#[verifier::external_body]
pub(crate) fn push_char(s: &mut String, c: char)
    ensures
        final(s)@ == old(s)@.push(c),
{
    s.push(c);
}

/// The position of the first entry for `c`.
pub(crate) fn find_entry(codes: &Vec<(char, String)>, c: char) -> (r: Option<usize>)
    ensures
        match r {
            Some(i) => lookup(table_of(codes@), c) == Some(i as int),
            None => lookup(table_of(codes@), c) is None,
        },
{
    let ghost t = table_of(codes@);
    proof {
        lemma_lookup(t, c);
    }
    let mut k: usize = 0;
    while k < codes.len()
        invariant
            t == table_of(codes@),
            k <= codes@.len(),
            forall|j: int| 0 <= j < k ==> (#[trigger] t[j]).0 != c,
        decreases codes@.len() - k,
    {
        if codes[k].0 == c {
            proof {
                lemma_lookup(t, c);
                assert(t[k as int].0 == c);
            }
            return Some(k);
        }
        k = k + 1;
    }
    proof {
        lemma_lookup(t, c);
    }
    None
}

/// Whether the non-empty word `w` stands in `bits` at `pos`.
fn is_match_at(w: &Vec<char>, bits: &Vec<char>, pos: usize) -> (r: bool)
    requires
        pos <= bits@.len(),
    ensures
        r == matches_at(w@, bits@.skip(pos as int)),
{
    if w.len() == 0 || w.len() > bits.len() - pos {
        return false;
    }
    let n: usize = bits.len();
    let mut k: usize = 0;
    while k < w.len()
        invariant
            n == bits@.len(),
            pos + w@.len() <= bits@.len(),
            k <= w@.len(),
            forall|j: int| 0 <= j < k ==> w@[j] == bits@[pos + j],
        decreases w@.len() - k,
    {
        if w[k] != bits[pos + k] {
            assert(w@[k as int] != bits@.skip(pos as int).subrange(0, w@.len() as int)[k as int]);
            return false;
        }
        k = k + 1;
    }
    assert(w@ =~= bits@.skip(pos as int).subrange(0, w@.len() as int));
    true
}

/// The codewords of a codebook, as character vectors.
fn words_of(codes: &Vec<(char, String)>) -> (r: Vec<Vec<char>>)
    ensures
        r@.len() == codes@.len(),
        forall|k: int| 0 <= k < r@.len() ==> (#[trigger] r@[k])@ == codes@[k].1@,
{
    let mut r: Vec<Vec<char>> = Vec::new();
    let mut k: usize = 0;
    while k < codes.len()
        invariant
            k <= codes@.len(),
            r@.len() == k,
            forall|j: int| 0 <= j < k ==> (#[trigger] r@[j])@ == codes@[j].1@,
        decreases codes@.len() - k,
    {
        r.push(chars_of(codes[k].1.as_str()));
        k = k + 1;
    }
    r
}

/// The position of the first entry whose codeword stands in `bits` at `pos`.
fn find_match(codes: &Vec<(char, String)>, words: &Vec<Vec<char>>, bits: &Vec<char>, pos: usize) -> (r: Option<usize>)
    requires
        pos <= bits@.len(),
        words@.len() == codes@.len(),
        forall|k: int| 0 <= k < words@.len() ==> (#[trigger] words@[k])@ == codes@[k].1@,
    ensures
        match r {
            Some(i) => first_match(table_of(codes@), bits@.skip(pos as int)) == Some(i as int),
            None => first_match(table_of(codes@), bits@.skip(pos as int)) is None,
        },
{
    let ghost t = table_of(codes@);
    let ghost rest = bits@.skip(pos as int);
    proof {
        lemma_first_match(t, rest);
    }
    let mut k: usize = 0;
    while k < words.len()
        invariant
            t == table_of(codes@),
            rest == bits@.skip(pos as int),
            pos <= bits@.len(),
            words@.len() == codes@.len(),
            forall|j: int| 0 <= j < words@.len() ==> (#[trigger] words@[j])@ == codes@[j].1@,
            k <= words@.len(),
            forall|j: int| 0 <= j < k ==> !matches_at((#[trigger] t[j]).1, rest),
        decreases words@.len() - k,
    {
        if is_match_at(&words[k], bits, pos) {
            proof {
                assert(t[k as int].1 == words@[k as int]@);
                lemma_first_match(t, rest);
            }
            return Some(k);
        }
        assert(t[k as int].1 == words@[k as int]@);
        k = k + 1;
    }
    proof {
        lemma_first_match(t, rest);
    }
    None
}

impl HuffmanTree {
    /// Encodes `pattern` through `codes`: the codewords of its symbols, in order
    /// and without separators. Fails on the first symbol without an entry.
    pub fn encode_with(codes: &Vec<(char, String)>, pattern: &str) -> (r: Result<String, HuffmanError>)
        ensures
            match r {
                Ok(bits) => encode_spec(table_of(codes@), pattern@) == Some(bits@),
                Err(e) => encode_spec(table_of(codes@), pattern@) is None && exists|k: int|
                    0 <= k < pattern@.len() && e == HuffmanError::LookupError(pattern@[k])
                        && lookup(table_of(codes@), #[trigger] pattern@[k]) is None
                        && forall|j: int| 0 <= j < k ==> lookup(table_of(codes@), #[trigger] pattern@[j]) is Some,
            },
    {
        let ghost t = table_of(codes@);
        let s = chars_of(pattern);
        let mut out = String::new();
        let mut i: usize = 0;
        proof {
            assert(s@.take(0) =~= Seq::<char>::empty());
        }
        while i < s.len()
            invariant
                t == table_of(codes@),
                s@ == pattern@,
                i <= s@.len(),
                encode_spec(t, s@.take(i as int)) == Some(out@),
                forall|j: int| 0 <= j < i ==> lookup(t, #[trigger] s@[j]) is Some,
            decreases s@.len() - i,
        {
            let c = s[i];
            match find_entry(codes, c) {
                None => {
                    proof {
                        lemma_encode_defined(t, s@);
                    }
                    return Err(HuffmanError::LookupError(c));
                },
                Some(k) => {
                    proof {
                        lemma_lookup(t, c);
                        assert(t[k as int].1 == codes@[k as int].1@);
                        lemma_encode_push(t, s@.take(i as int), c);
                        assert(s@.take(i as int).push(c) =~= s@.take(i + 1));
                    }
                    out.append(codes[k].1.as_str());
                    i = i + 1;
                },
            }
        }
        assert(s@.take(i as int) =~= s@);
        Ok(out)
    }

    /// Decodes `value` through `codes`: repeatedly the first entry whose codeword
    /// starts the remaining bits gives the next symbol. Fails when no entry does.
    /// On a prefix-free codebook at most one entry can match at each step, so
    /// the order of the entries does not matter there.
    pub fn decode(codes: &Vec<(char, String)>, value: &str) -> (r: Result<String, HuffmanError>)
        ensures
            match r {
                Ok(out) => decode_spec(table_of(codes@), value@) == Some(out@),
                Err(e) => e == HuffmanError::DecodeError && decode_spec(table_of(codes@), value@) is None,
            },
    {
        let ghost t = table_of(codes@);
        let bits = chars_of(value);
        let words = words_of(codes);
        let mut out = String::new();
        let mut pos: usize = 0;
        proof {
            assert(bits@.skip(0) =~= bits@);
            assert(Seq::<char>::empty() + bits@ =~= bits@);
            assert forall|r: Seq<char>| Seq::<char>::empty() + r == r by {
                assert(Seq::<char>::empty() + r =~= r);
            }
        }
        while pos < bits.len()
            invariant
                t == table_of(codes@),
                bits@ == value@,
                words@.len() == codes@.len(),
                forall|k: int| 0 <= k < words@.len() ==> (#[trigger] words@[k])@ == codes@[k].1@,
                pos <= bits@.len(),
                decode_spec(t, bits@) == match decode_spec(t, bits@.skip(pos as int)) {
                    Some(r) => Some(out@ + r),
                    None => None,
                },
            decreases bits@.len() - pos,
        {
            let ghost rest = bits@.skip(pos as int);
            match find_match(codes, &words, &bits, pos) {
                None => {
                    return Err(HuffmanError::DecodeError);
                },
                Some(k) => {
                    proof {
                        lemma_first_match(t, rest);
                        assert(t[k as int].1 == words@[k as int]@);
                        assert(rest.skip(words@[k as int]@.len() as int) =~= bits@.skip(pos + words@[k as int]@.len()));
                        let ghost old_out = out@;
                        assert forall|r: Seq<char>| old_out + (seq![t[k as int].0] + r) == old_out.push(t[k as int].0) + r by {
                            assert(old_out + (seq![t[k as int].0] + r) =~= old_out.push(t[k as int].0) + r);
                        }
                    }
                    push_char(&mut out, codes[k].0);
                    pos = pos + words[k].len();
                },
            }
        }
        proof {
            assert(bits@.skip(pos as int) =~= Seq::<char>::empty());
            assert(out@ + Seq::<char>::empty() =~= out@);
        }
        Ok(out)
    }

    /// Encodes `pattern` through this tree's codebook.
    pub fn encode(&self, pattern: &str) -> (r: Result<String, HuffmanError>)
        ensures
            match r {
                Ok(bits) => encode_spec(table_of(self.spec_codes()), pattern@) == Some(bits@),
                Err(e) => encode_spec(table_of(self.spec_codes()), pattern@) is None && exists|k: int|
                    0 <= k < pattern@.len() && e == HuffmanError::LookupError(pattern@[k])
                        && lookup(table_of(self.spec_codes()), #[trigger] pattern@[k]) is None
                        && forall|j: int| 0 <= j < k ==> lookup(table_of(self.spec_codes()), #[trigger] pattern@[j])
                        is Some,
            },
            self.built_from(pattern@) ==> r is Ok,
    {
        proof {
            if self.built_from(pattern@) {
                self.lemma_round_trip(pattern@);
            }
        }
        HuffmanTree::encode_with(self.codes(), pattern)
    }

    /// Through the codebook of a tree built from `s`, encoding `s` succeeds,
    /// and decoding the result gives `s` back.
    pub proof fn lemma_round_trip(self, s: Seq<char>)
        requires
            self.built_from(s),
        ensures
            encode_spec(table_of(self.spec_codes()), s) is Some,
            decode_spec(table_of(self.spec_codes()), encode_spec(table_of(self.spec_codes()), s).unwrap())
                == Some(s),
    {
        let t = table_of(self.spec_codes());
        self.lemma_code_for(s);
        assert forall|k: int| 0 <= k < s.len() implies lookup(t, #[trigger] s[k]) is Some by {
            assert(s.contains(s[k]));
        }
        lemma_encode_defined(t, s);
        lemma_decode_encode(t, s);
    }
}

} // verus!
