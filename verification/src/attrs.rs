//! The attribute grammar of `#[auto_json_db(...)]`.
//!
//! An attribute list is read as a series of entries, each a word optionally
//! followed by `= "value"`, each entry ended by a comma or by the end of the
//! text. The text is searched left to right; at every position the first entry
//! that can be read there is taken, and positions where none can be read are
//! passed over. This is meant as the reading that the pattern
//! `\s*(\w+)(?:\s*=\s*"([^"]*)")?\s*(?:,|$)` gives under a leftmost-first
//! search; that the two agree is not proved here, and the tests compare them.

use vstd::prelude::*;
use vstd::string::*;
use crate::text::{
    chars_of, find_char, find_from, is_word_char, lemma_find_from_bounds, lemma_word_end_bounds,
    lemma_ws_end_bounds, lemma_ws_end_stop, lemma_word_end_stop, lemma_find_from_stop,
    lemma_scans_shift, skip_white, skip_word, slice_of, white_space, word_char, word_end, ws_end,
};

verus! {

/// One entry read from the attribute text: its key and, if given, its quoted value.
pub type Entry = (Seq<char>, Option<Seq<char>>);

/// The entry that can be read starting exactly at `i`, with the position just after it.
pub open spec fn entry_at(s: Seq<char>, i: int) -> Option<(int, Entry)> {
    let j = ws_end(s, i);
    if !(0 <= j < s.len() && word_char(s[j])) {
        None
    } else {
        let k = word_end(s, j);
        let key = s.subrange(j, k);
        let m = ws_end(s, k);
        if m < s.len() && s[m] == '=' {
            let n = ws_end(s, m + 1);
            if n < s.len() && s[n] == '"' {
                let q = find_from(s, '"', n + 1);
                if q < s.len() {
                    let r = ws_end(s, q + 1);
                    let value = Some(s.subrange(n + 1, q));
                    if r == s.len() {
                        Some((r, (key, value)))
                    } else if s[r] == ',' {
                        Some((r + 1, (key, value)))
                    } else {
                        None
                    }
                } else {
                    None
                }
            } else {
                None
            }
        } else if m == s.len() {
            Some((m, (key, None)))
        } else if s[m] == ',' {
            Some((m + 1, (key, None)))
        } else {
            None
        }
    }
}

/// All entries found by searching `s` from position `pos` on.
pub open spec fn entries_from(s: Seq<char>, pos: int) -> Seq<Entry>
    decreases s.len() - pos,
{
    if pos < 0 || pos >= s.len() {
        Seq::empty()
    } else {
        match entry_at(s, pos) {
            Some((e, en)) => {
                proof {
                    lemma_entry_at_shape(s, pos);
                }
                seq![en] + entries_from(s, e)
            },
            None => entries_from(s, pos + 1),
        }
    }
}

/// The value an entry stands for: its quoted text, or `true` where none is given.
pub open spec fn entry_value(v: Option<Seq<char>>) -> Seq<char> {
    match v {
        Some(t) => t,
        None => seq!['t', 'r', 'u', 'e'],
    }
}

/// The map that entries give, a later entry for a key replacing an earlier one.
pub open spec fn map_of_entries(es: Seq<Entry>) -> Map<Seq<char>, Seq<char>>
    decreases es.len(),
{
    if es.len() == 0 {
        Map::empty()
    } else {
        map_of_entries(es.drop_last()).insert(es.last().0, entry_value(es.last().1))
    }
}

/// The attributes that the text `s` names.
pub open spec fn attributes_of(s: Seq<char>) -> Map<Seq<char>, Seq<char>> {
    map_of_entries(entries_from(s, 0))
}

/// An entry read at `i` ends after `i`, within the text, and its key is a
/// non-empty run of word characters.
pub proof fn lemma_entry_at_shape(s: Seq<char>, i: int)
    requires
        0 <= i <= s.len(),
        entry_at(s, i) is Some,
    ensures
        ({
            let (e, en) = entry_at(s, i)->0;
            &&& i < e <= s.len()
            &&& en.0.len() > 0
            &&& forall|k: int| 0 <= k < en.0.len() ==> word_char(#[trigger] en.0[k])
            &&& en.1 matches Some(v) ==> forall|k: int| 0 <= k < v.len() ==> #[trigger] v[k] != '"'
        }),
{
    lemma_ws_end_bounds(s, i);
    let j = ws_end(s, i);
    lemma_word_end_bounds(s, j);
    let k = word_end(s, j);
    lemma_ws_end_bounds(s, k);
    let m = ws_end(s, k);
    if m < s.len() && s[m] == '=' {
        lemma_ws_end_bounds(s, m + 1);
        let n = ws_end(s, m + 1);
        lemma_find_from_bounds(s, '"', n + 1);
        let q = find_from(s, '"', n + 1);
        lemma_ws_end_bounds(s, q + 1);
        let v = s.subrange(n + 1, q);
        assert forall|t: int| 0 <= t < v.len() implies #[trigger] v[t] != '"' by {
            assert(v[t] == s[n + 1 + t]);
        }
    }
    let key = s.subrange(j, k);
    assert forall|t: int| 0 <= t < key.len() implies word_char(#[trigger] key[t]) by {
        assert(key[t] == s[j + t]);
    }
}

/// Every key read from an attribute text is a non-empty run of word
/// characters, and no value holds a double quote.
pub proof fn lemma_entries_shape(s: Seq<char>, pos: int)
    requires
        0 <= pos <= s.len(),
    ensures
        forall|t: int|
            0 <= t < entries_from(s, pos).len() ==> {
                let en = #[trigger] entries_from(s, pos)[t];
                &&& en.0.len() > 0
                &&& forall|k: int| 0 <= k < en.0.len() ==> word_char(#[trigger] en.0[k])
                &&& en.1 matches Some(v) ==> forall|k: int|
                    0 <= k < v.len() ==> #[trigger] v[k] != '"'
            },
    decreases s.len() - pos,
{
    if pos < s.len() {
        match entry_at(s, pos) {
            Some((e, en)) => {
                lemma_entry_at_shape(s, pos);
                lemma_entries_shape(s, e);
                let rest = entries_from(s, e);
                assert forall|t: int| 0 <= t < entries_from(s, pos).len() implies {
                    let en2 = #[trigger] entries_from(s, pos)[t];
                    &&& en2.0.len() > 0
                    &&& forall|k: int| 0 <= k < en2.0.len() ==> word_char(#[trigger] en2.0[k])
                    &&& en2.1 matches Some(v) ==> forall|k: int|
                        0 <= k < v.len() ==> #[trigger] v[k] != '"'
                } by {
                    if t > 0 {
                        assert(entries_from(s, pos)[t] == rest[t - 1]);
                    }
                }
            },
            None => {
                lemma_entries_shape(s, pos + 1);
            },
        }
    }
}

/// The entry that can be read at `i`, with the position after it.
fn read_entry(text: &str, s: &Vec<char>, i: usize) -> (r: Option<(usize, String, Option<String>)>)
    requires
        i <= s@.len(),
        s@ == text@,
    ensures
        match entry_at(s@, i as int) {
            None => r is None,
            Some((e, en)) => r matches Some((e2, k, v)) && e2 == e && k@ == en.0 && match en.1 {
                None => v is None,
                Some(t) => v matches Some(v2) && v2@ == t,
            },
        },
{
    proof {
        lemma_ws_end_bounds(s@, i as int);
    }
    let n_len = s.len();
    let j = skip_white(s, i);
    if !(j < n_len && is_word_char(s[j])) {
        return None;
    }
    let k = skip_word(s, j);
    proof {
        lemma_word_end_bounds(s@, j as int);
        lemma_ws_end_bounds(s@, k as int);
    }
    let m = skip_white(s, k);
    if m < n_len && s[m] == '=' {
        proof {
            lemma_ws_end_bounds(s@, m + 1);
        }
        let n = skip_white(s, m + 1);
        if n < n_len && s[n] == '"' {
            proof {
                lemma_find_from_bounds(s@, '"', n + 1);
            }
            let q = find_char(s, '"', n + 1);
            if q < n_len {
                proof {
                    lemma_ws_end_bounds(s@, q + 1);
                }
                let r = skip_white(s, q + 1);
                if r == n_len {
                    Some((r, slice_of(text, j, k), Some(slice_of(text, n + 1, q))))
                } else if s[r] == ',' {
                    Some((r + 1, slice_of(text, j, k), Some(slice_of(text, n + 1, q))))
                } else {
                    None
                }
            } else {
                None
            }
        } else {
            None
        }
    } else if m == n_len {
        Some((m, slice_of(text, j, k), None))
    } else if s[m] == ',' {
        Some((m + 1, slice_of(text, j, k), None))
    } else {
        None
    }
}

} // verus!

verus! {

/// No two pairs share a key.
pub open spec fn keys_distinct(ps: Seq<(Seq<char>, Seq<char>)>) -> bool {
    forall|i: int, j: int| 0 <= i < ps.len() && 0 <= j < ps.len() && i != j ==> ps[i].0 != ps[j].0
}

/// The map that key/value pairs give, a later pair for a key replacing an earlier one.
pub open spec fn map_of_pairs(ps: Seq<(Seq<char>, Seq<char>)>) -> Map<Seq<char>, Seq<char>>
    decreases ps.len(),
{
    if ps.len() == 0 {
        Map::empty()
    } else {
        map_of_pairs(ps.drop_last()).insert(ps.last().0, ps.last().1)
    }
}

proof fn lemma_map_of_distinct_pairs(ps: Seq<(Seq<char>, Seq<char>)>)
    requires
        keys_distinct(ps),
    ensures
        forall|k: Seq<char>|
            #[trigger] map_of_pairs(ps).contains_key(k) <==> exists|i: int|
                0 <= i < ps.len() && ps[i].0 == k,
        forall|i: int| 0 <= i < ps.len() ==> #[trigger] map_of_pairs(ps)[ps[i].0] == ps[i].1,
    decreases ps.len(),
{
    if ps.len() > 0 {
        let init = ps.drop_last();
        assert(keys_distinct(init));
        lemma_map_of_distinct_pairs(init);
        assert forall|k: Seq<char>|
            #[trigger] map_of_pairs(ps).contains_key(k) <==> exists|i: int|
                0 <= i < ps.len() && ps[i].0 == k by {
            if map_of_pairs(ps).contains_key(k) && k != ps.last().0 {
                assert(map_of_pairs(init).contains_key(k));
                let i = choose|i: int| 0 <= i < init.len() && init[i].0 == k;
                assert(ps[i].0 == k);
            }
            if exists|i: int| 0 <= i < ps.len() && ps[i].0 == k {
                let i = choose|i: int| 0 <= i < ps.len() && ps[i].0 == k;
                if i < ps.len() - 1 {
                    assert(init[i].0 == k);
                    assert(map_of_pairs(init).contains_key(k));
                }
            }
        }
        assert forall|i: int| 0 <= i < ps.len() implies #[trigger] map_of_pairs(ps)[ps[i].0]
            == ps[i].1 by {
            if i < ps.len() - 1 {
                assert(init[i] == ps[i]);
                assert(ps[i].0 != ps.last().0);
                assert(map_of_pairs(init)[init[i].0] == init[i].1);
            }
        }
    }
}

proof fn lemma_map_of_pairs_update(ps: Seq<(Seq<char>, Seq<char>)>, i: int, v: Seq<char>)
    requires
        keys_distinct(ps),
        0 <= i < ps.len(),
    ensures
        map_of_pairs(ps.update(i, (ps[i].0, v))) == map_of_pairs(ps).insert(ps[i].0, v),
    decreases ps.len(),
{
    let k = ps[i].0;
    let qs = ps.update(i, (k, v));
    let init = ps.drop_last();
    if i == ps.len() - 1 {
        assert(qs.drop_last() =~= init);
        assert(map_of_pairs(qs) =~= map_of_pairs(ps).insert(k, v));
    } else {
        assert(keys_distinct(init));
        lemma_map_of_pairs_update(init, i, v);
        assert(qs.drop_last() =~= init.update(i, (k, v)));
        assert(ps.last().0 != k);
        assert(map_of_pairs(qs) =~= map_of_pairs(ps).insert(k, v));
    }
}

/// The index of the pair whose key is `k`, if any.
fn find_key(pairs: &Vec<(String, String)>, k: &String) -> (r: Option<usize>)
    ensures
        match r {
            Some(i) => i < pairs@.len() && pairs.deep_view()[i as int].0 == k@,
            None => forall|j: int| 0 <= j < pairs@.len() ==> #[trigger] pairs.deep_view()[j].0 != k@,
        },
{
    let ghost ps = pairs.deep_view();
    let mut i: usize = 0;
    while i < pairs.len()
        invariant
            i <= pairs@.len(),
            ps == pairs.deep_view(),
            forall|j: int| 0 <= j < i ==> #[trigger] ps[j].0 != k@,
        decreases pairs@.len() - i,
    {
        assert(ps[i as int] == pairs@[i as int].deep_view());
        if pairs[i].0 == *k {
            return Some(i);
        }
        i = i + 1;
    }
    None
}

/// Adds or replaces the value for `k`.
fn put(out: &mut Vec<(String, String)>, k: String, v: String)
    requires
        keys_distinct(old(out).deep_view()),
    ensures
        keys_distinct(final(out).deep_view()),
        map_of_pairs(final(out).deep_view()) == map_of_pairs(old(out).deep_view()).insert(k@, v@),
{
    let ghost ps = out.deep_view();
    match find_key(out, &k) {
        Some(i) => {
            proof {
                lemma_map_of_pairs_update(ps, i as int, v@);
            }
            out[i] = (k, v);
            assert(out.deep_view() =~= ps.update(i as int, (ps[i as int].0, v@)));
            assert(forall|a: int| 0 <= a < ps.len() ==> #[trigger] out.deep_view()[a].0 == ps[a].0);
        },
        None => {
            let ghost kv = (k@, v@);
            out.push((k, v));
            assert(out.deep_view() =~= ps.push(kv));
            assert(out.deep_view().drop_last() =~= ps);
            assert forall|a: int, b: int|
                0 <= a < ps.len() + 1 && 0 <= b < ps.len() + 1 && a != b implies ps.push(kv)[a].0
                != ps.push(kv)[b].0 by {
                if a == ps.len() {
                    assert(ps[b].0 != kv.0);
                } else if b == ps.len() {
                    assert(ps[a].0 != kv.0);
                }
            }
        },
    }
}

/// The attributes of an `auto_json_db` invocation, keyed by name.
pub struct AttrMap {
    pairs: Vec<(String, String)>,
}

impl View for AttrMap {
    type V = Map<Seq<char>, Seq<char>>;

    closed spec fn view(&self) -> Map<Seq<char>, Seq<char>> {
        map_of_pairs(self.pairs.deep_view())
    }
}

impl AttrMap {
    #[verifier::type_invariant]
    spec fn inv(self) -> bool {
        keys_distinct(self.pairs.deep_view())
    }

    /// The value given for `key`, if any.
    pub fn get(&self, key: &str) -> (r: Option<&String>)
        ensures
            match r {
                Some(v) => self@.contains_key(key@) && v@ == self@[key@],
                None => !self@.contains_key(key@),
            },
    {
        proof {
            use_type_invariant(self);
            lemma_map_of_distinct_pairs(self.pairs.deep_view());
        }
        let k = String::from_str(key);
        match find_key(&self.pairs, &k) {
            Some(i) => {
                assert(self.pairs.deep_view()[i as int] == self.pairs@[i as int].deep_view());
                Some(&self.pairs[i].1)
            },
            None => None,
        }
    }

    /// Whether `key` is given.
    pub fn contains_key(&self, key: &str) -> (r: bool)
        ensures
            r == self@.contains_key(key@),
    {
        self.get(key).is_some()
    }
}

/// The entries of an attribute text, in the order they are found, each with
/// its key and, where one is given, its quoted value.
pub fn attribute_entries(input: &str) -> (r: Vec<(String, Option<String>)>)
    ensures
        r.deep_view() == entries_from(input@, 0),
{
    let cs = chars_of(input);
    let n = cs.len();
    let mut out: Vec<(String, Option<String>)> = Vec::new();
    let mut pos: usize = 0;
    assert(out.deep_view() =~= Seq::<Entry>::empty());
    while pos < n
        invariant
            n == cs@.len(),
            cs@ == input@,
            pos <= n,
            entries_from(cs@, 0) == out.deep_view() + entries_from(cs@, pos as int),
        decreases n - pos,
    {
        match read_entry(input, &cs, pos) {
            Some((e, k, v)) => {
                proof {
                    lemma_entry_at_shape(cs@, pos as int);
                }
                let ghost before = out.deep_view();
                let ghost en: Entry = (k@, v.deep_view());
                out.push((k, v));
                proof {
                    assert(out.deep_view() =~= before.push(en));
                    assert(before + entries_from(cs@, pos as int) =~= before.push(en)
                        + entries_from(cs@, e as int));
                }
                pos = e;
            },
            None => {
                pos = pos + 1;
            },
        }
    }
    proof {
        assert(out.deep_view() + entries_from(cs@, pos as int) =~= out.deep_view());
    }
    out
}

/// The attributes that entries give: a key without a value stands for
/// `true`, and a later entry for a key replaces an earlier one.
pub fn attributes_from_entries(entries: &Vec<(String, Option<String>)>) -> (r: AttrMap)
    ensures
        r@ == map_of_entries(entries.deep_view()),
{
    let ghost es = entries.deep_view();
    let mut out: Vec<(String, String)> = Vec::new();
    let mut i: usize = 0;
    proof {
        assert(out.deep_view() =~= Seq::<(Seq<char>, Seq<char>)>::empty());
        assert(es.take(0) =~= Seq::<Entry>::empty());
    }
    while i < entries.len()
        invariant
            i <= entries@.len(),
            es == entries.deep_view(),
            keys_distinct(out.deep_view()),
            map_of_pairs(out.deep_view()) == map_of_entries(es.take(i as int)),
        decreases entries@.len() - i,
    {
        assert(es[i as int] == entries@[i as int].deep_view());
        let k = entries[i].0.clone();
        let value = match &entries[i].1 {
            Some(t) => t.clone(),
            None => String::from_str("true"),
        };
        proof {
            reveal_strlit("true");
            assert(value@ == entry_value(es[i as int].1));
        }
        put(&mut out, k, value);
        proof {
            assert(es.take(i + 1).drop_last() =~= es.take(i as int));
        }
        i = i + 1;
    }
    assert(es.take(i as int) =~= es);
    AttrMap { pairs: out }
}

/// Reads the attributes of an `auto_json_db` invocation from their text, as in
/// `key = "name|age", singleton`. A key without a value stands for `true`; a
/// later entry for a key replaces an earlier one; text that forms no entry is
/// passed over.
pub fn parse_string_to_hashmap(input: &str) -> (r: AttrMap)
    ensures
        r@ == attributes_of(input@),
{
    attributes_from_entries(&attribute_entries(input))
}

} // verus!

verus! {

/// Reading entries looks only forward: after a prefix `a`, the text `a + b`
/// yields the entries of `b`.
pub proof fn lemma_entries_shift(a: Seq<char>, b: Seq<char>, i: int)
    requires
        0 <= i <= b.len(),
    ensures
        entries_from(a + b, a.len() + i) == entries_from(b, i),
    decreases b.len() - i,
{
    let t = a + b;
    let o = a.len() as int;
    if i < b.len() {
        lemma_entry_shift(a, b, i);
        match entry_at(b, i) {
            Some((e, en)) => {
                lemma_entry_at_shape(b, i);
                lemma_entries_shift(a, b, e);
            },
            None => {
                lemma_entries_shift(a, b, i + 1);
            },
        }
    } else {
        assert(o + i == t.len());
    }
}

proof fn lemma_entry_shift(a: Seq<char>, b: Seq<char>, i: int)
    requires
        0 <= i < b.len(),
    ensures
        match entry_at(b, i) {
            None => entry_at(a + b, a.len() + i) is None,
            Some((e, en)) => entry_at(a + b, a.len() + i) == Some((a.len() + e, en)),
        },
{
    let t = a + b;
    let o = a.len() as int;
    lemma_ws_end_bounds(b, i);
    lemma_scans_shift(a, b, i, '"');
    let j = ws_end(b, i);
    if 0 <= j < b.len() && word_char(b[j]) {
        assert(t[o + j] == b[j]);
        lemma_word_end_bounds(b, j);
        lemma_scans_shift(a, b, j, '"');
        let k = word_end(b, j);
        assert(t.subrange(o + j, o + k) =~= b.subrange(j, k));
        lemma_ws_end_bounds(b, k);
        lemma_scans_shift(a, b, k, '"');
        let m = ws_end(b, k);
        if m < b.len() {
            assert(t[o + m] == b[m]);
        }
        if m < b.len() && b[m] == '=' {
            lemma_ws_end_bounds(b, m + 1);
            lemma_scans_shift(a, b, m + 1, '"');
            let n = ws_end(b, m + 1);
            if n < b.len() {
                assert(t[o + n] == b[n]);
            }
            if n < b.len() && b[n] == '"' {
                lemma_find_from_bounds(b, '"', n + 1);
                lemma_scans_shift(a, b, n + 1, '"');
                let q = find_from(b, '"', n + 1);
                assert(t.subrange(o + n + 1, o + q) =~= b.subrange(n + 1, q));
                if q < b.len() {
                    lemma_ws_end_bounds(b, q + 1);
                    lemma_scans_shift(a, b, q + 1, '"');
                    let r = ws_end(b, q + 1);
                    if r < b.len() {
                        assert(t[o + r] == b[r]);
                    }
                }
            }
        }
    } else {
        if 0 <= j < b.len() {
            assert(t[o + j] == b[j]);
        }
    }
}

} // verus!

verus! {

/// The white space laid around one entry where it is written: before its key,
/// after its key, after `=`, and after the closing quote.
pub struct Spacing {
    pub before_key: Seq<char>,
    pub after_key: Seq<char>,
    pub after_eq: Seq<char>,
    pub after_value: Seq<char>,
}

/// Every character of `s` is white space.
pub open spec fn all_white(s: Seq<char>) -> bool {
    forall|i: int| 0 <= i < s.len() ==> white_space(#[trigger] s[i])
}

/// Every part of the spacing is white space.
pub open spec fn spacing_is_white(sp: Spacing) -> bool {
    &&& all_white(sp.before_key)
    &&& all_white(sp.after_key)
    &&& all_white(sp.after_eq)
    &&& all_white(sp.after_value)
}

/// One entry written out: `key`, or `key = "value"`, with the given spacing.
pub open spec fn write_entry(en: Entry, sp: Spacing) -> Seq<char> {
    match en.1 {
        Some(v) => sp.before_key + en.0 + sp.after_key + seq!['='] + sp.after_eq + seq!['"'] + v
            + seq!['"'] + sp.after_value,
        None => sp.before_key + en.0 + sp.after_key,
    }
}

/// Entries written out one after another, parted by commas.
pub open spec fn write_entries(es: Seq<Entry>, sps: Seq<Spacing>) -> Seq<char>
    decreases es.len(),
{
    if es.len() == 0 {
        Seq::empty()
    } else if es.len() == 1 {
        write_entry(es[0], sps[0])
    } else {
        write_entry(es[0], sps[0]) + seq![','] + write_entries(es.drop_first(), sps.drop_first())
    }
}

/// What may close a written list: nothing, or a comma followed by white space.
pub open spec fn is_list_end(tail: Seq<char>) -> bool {
    tail.len() == 0 || (tail[0] == ',' && all_white(tail.drop_first()))
}

/// A key that reads back as written: a non-empty run of word characters.
pub open spec fn is_plain_key(k: Seq<char>) -> bool {
    &&& k.len() > 0
    &&& forall|i: int| 0 <= i < k.len() ==> word_char(#[trigger] k[i])
}

/// A value that reads back as written: it holds no double quote.
pub open spec fn is_plain_value(v: Seq<char>) -> bool {
    forall|i: int| 0 <= i < v.len() ==> #[trigger] v[i] != '"'
}

/// An entry that reads back as written.
pub open spec fn is_plain_entry(en: Entry) -> bool {
    &&& is_plain_key(en.0)
    &&& en.1 matches Some(v) ==> is_plain_value(v)
}

/// A text that holds no word character gives no entries.
pub proof fn lemma_no_words_no_entries(s: Seq<char>, i: int)
    requires
        0 <= i <= s.len(),
        forall|k: int| 0 <= k < s.len() ==> !word_char(#[trigger] s[k]),
    ensures
        entries_from(s, i) == Seq::<Entry>::empty(),
    decreases s.len() - i,
{
    if i < s.len() {
        lemma_ws_end_bounds(s, i);
        assert(entry_at(s, i) is None);
        lemma_no_words_no_entries(s, i + 1);
    }
}

proof fn lemma_entry_at_written(en: Entry, sp: Spacing, after: Seq<char>)
    requires
        is_plain_entry(en),
        spacing_is_white(sp),
        after.len() == 0 || after[0] == ',',
    ensures
        entry_at(write_entry(en, sp) + after, 0) == Some(
            (
                if after.len() == 0 {
                    write_entry(en, sp).len() as int
                } else {
                    write_entry(en, sp).len() + 1 as int
                },
                en,
            ),
        ),
{
    let w = write_entry(en, sp);
    let s = w + after;
    let key = en.0;
    let o1 = sp.before_key.len() as int;
    let o2 = o1 + key.len();
    let o3 = o2 + sp.after_key.len();
    assert forall|x: int| 0 <= x < o1 implies white_space(#[trigger] s[x]) by {
        assert(s[x] == sp.before_key[x]);
    }
    assert(s[o1] == key[0]);
    assert(!white_space(key[0]));
    lemma_ws_end_stop(s, 0, o1);
    assert forall|x: int| o1 <= x < o2 implies word_char(#[trigger] s[x]) by {
        assert(s[x] == key[x - o1]);
    }
    assert(s.subrange(o1, o2) =~= key);
    assert forall|x: int| o2 <= x < o3 implies white_space(#[trigger] s[x]) by {
        assert(s[x] == sp.after_key[x - o2]);
    }
    if o2 < o3 {
        assert(s[o2] == sp.after_key[0]);
    }
    match en.1 {
        Some(v) => {
            let o4 = o3 + 1;
            let o5 = o4 + sp.after_eq.len();
            let o6 = o5 + 1;
            let o7 = o6 + v.len();
            let o8 = o7 + 1;
            let o9 = o8 + sp.after_value.len();
            assert(w.len() == o9);
            assert(s[o3] == '=');
            lemma_word_end_stop(s, o1, o2);
            lemma_ws_end_stop(s, o2, o3);
            assert forall|x: int| o4 <= x < o5 implies white_space(#[trigger] s[x]) by {
                assert(s[x] == sp.after_eq[x - o4]);
            }
            assert(s[o5] == '"');
            lemma_ws_end_stop(s, o4, o5);
            assert forall|x: int| o6 <= x < o7 implies #[trigger] s[x] != '"' by {
                assert(s[x] == v[x - o6]);
            }
            assert(s[o7] == '"');
            lemma_find_from_stop(s, '"', o6, o7);
            assert(s.subrange(o6, o7) =~= v);
            assert forall|x: int| o8 <= x < o9 implies white_space(#[trigger] s[x]) by {
                assert(s[x] == sp.after_value[x - o8]);
            }
            if after.len() > 0 {
                assert(s[o9] == after[0]);
            }
            lemma_ws_end_stop(s, o8, o9);
        },
        None => {
            assert(w.len() == o3);
            if after.len() > 0 {
                assert(s[o3] == after[0]);
            }
            lemma_word_end_stop(s, o1, o2);
            lemma_ws_end_stop(s, o2, o3);
        },
    }
}

/// Entries written out with any white spacing around keys, `=`, values and
/// commas, and closed by nothing or by a trailing comma, read back as written:
/// the same entries, in the same order.
pub proof fn lemma_written_entries_read_back(es: Seq<Entry>, sps: Seq<Spacing>, tail: Seq<char>)
    requires
        sps.len() == es.len(),
        forall|i: int| 0 <= i < es.len() ==> is_plain_entry(#[trigger] es[i]),
        forall|i: int| 0 <= i < sps.len() ==> spacing_is_white(#[trigger] sps[i]),
        is_list_end(tail),
    ensures
        entries_from(write_entries(es, sps) + tail, 0) == es,
    decreases es.len(),
{
    let s = write_entries(es, sps) + tail;
    if es.len() == 0 {
        assert(s =~= tail);
        assert forall|k: int| 0 <= k < s.len() implies !word_char(#[trigger] s[k]) by {
            if k > 0 {
                assert(s[k] == tail.drop_first()[k - 1]);
            }
        }
        lemma_no_words_no_entries(s, 0);
        assert(es =~= Seq::<Entry>::empty());
    } else if es.len() == 1 {
        let w = write_entry(es[0], sps[0]);
        assert(s =~= w + tail);
        lemma_entry_at_written(es[0], sps[0], tail);
        if tail.len() == 0 {
            assert(entries_from(s, 0) == seq![es[0]] + entries_from(s, s.len() as int));
        } else {
            let a = w + seq![','];
            let rest = tail.drop_first();
            assert(s =~= a + rest);
            assert forall|k: int| 0 <= k < rest.len() implies !word_char(#[trigger] rest[k]) by {}
            lemma_no_words_no_entries(rest, 0);
            lemma_entries_shift(a, rest, 0);
            assert(entries_from(s, 0) == seq![es[0]] + entries_from(s, a.len() as int));
        }
        assert(entries_from(s, 0) =~= es);
    } else {
        let w = write_entry(es[0], sps[0]);
        let more = write_entries(es.drop_first(), sps.drop_first()) + tail;
        assert(s =~= w + (seq![','] + more));
        lemma_entry_at_written(es[0], sps[0], seq![','] + more);
        lemma_written_entries_read_back(es.drop_first(), sps.drop_first(), tail);
        let a = w + seq![','];
        assert(s =~= a + more);
        lemma_entries_shift(a, more, 0);
        assert(entries_from(s, 0) == seq![es[0]] + entries_from(s, a.len() as int));
        assert(entries_from(s, 0) =~= es);
    }
}

/// Attributes written out as a list read back as the map their entries give.
pub proof fn lemma_written_attributes(es: Seq<Entry>, sps: Seq<Spacing>, tail: Seq<char>)
    requires
        sps.len() == es.len(),
        forall|i: int| 0 <= i < es.len() ==> is_plain_entry(#[trigger] es[i]),
        forall|i: int| 0 <= i < sps.len() ==> spacing_is_white(#[trigger] sps[i]),
        is_list_end(tail),
    ensures
        attributes_of(write_entries(es, sps) + tail) == map_of_entries(es),
{
    lemma_written_entries_read_back(es, sps, tail);
}

/// White space around keys, `=`, values and commas, and a trailing comma, do
/// not change what a list of attributes reads as: two writings of the same
/// entries give the same entries and the same attributes.
pub proof fn lemma_spacing_does_not_matter(
    es: Seq<Entry>,
    sps1: Seq<Spacing>,
    tail1: Seq<char>,
    sps2: Seq<Spacing>,
    tail2: Seq<char>,
)
    requires
        sps1.len() == es.len(),
        sps2.len() == es.len(),
        forall|i: int| 0 <= i < es.len() ==> is_plain_entry(#[trigger] es[i]),
        forall|i: int| 0 <= i < sps1.len() ==> spacing_is_white(#[trigger] sps1[i]),
        forall|i: int| 0 <= i < sps2.len() ==> spacing_is_white(#[trigger] sps2[i]),
        is_list_end(tail1),
        is_list_end(tail2),
    ensures
        entries_from(write_entries(es, sps1) + tail1, 0) == entries_from(
            write_entries(es, sps2) + tail2,
            0,
        ),
        attributes_of(write_entries(es, sps1) + tail1) == attributes_of(
            write_entries(es, sps2) + tail2,
        ),
{
    lemma_written_entries_read_back(es, sps1, tail1);
    lemma_written_entries_read_back(es, sps2, tail2);
}

/// A key is among the attributes exactly when some entry gives it; its value
/// is the quoted text of the last entry for it, or `true` where that entry is
/// a bare key.
pub proof fn lemma_attribute_value(es: Seq<Entry>, k: Seq<char>, i: int)
    requires
        0 <= i < es.len(),
        es[i].0 == k,
        forall|j: int| i < j < es.len() ==> es[j].0 != k,
    ensures
        map_of_entries(es).contains_key(k),
        map_of_entries(es)[k] == match es[i].1 {
            Some(v) => v,
            None => seq!['t', 'r', 'u', 'e'],
        },
{
    lemma_last_entry_wins(es, k);
    let i2 = choose|i2: int|
        0 <= i2 < es.len() && es[i2].0 == k && map_of_entries(es)[k] == entry_value(es[i2].1)
            && forall|j: int| i2 < j < es.len() ==> es[j].0 != k;
    if i2 < i {
        assert(es[i].0 != k);
    } else if i < i2 {
        assert(es[i2].0 != k);
    }
}

/// A key is among the attributes exactly when some entry gives it, and its
/// value is the one that the last such entry gives.
pub proof fn lemma_last_entry_wins(es: Seq<Entry>, k: Seq<char>)
    ensures
        map_of_entries(es).contains_key(k) <==> exists|i: int| 0 <= i < es.len() && es[i].0 == k,
        map_of_entries(es).contains_key(k) ==> exists|i: int|
            0 <= i < es.len() && es[i].0 == k && map_of_entries(es)[k] == entry_value(es[i].1)
                && forall|j: int| i < j < es.len() ==> es[j].0 != k,
    decreases es.len(),
{
    if es.len() > 0 {
        let init = es.drop_last();
        lemma_last_entry_wins(init, k);
        let last = es.len() - 1;
        if es[last].0 == k {
            assert(es[last].0 == k && map_of_entries(es)[k] == entry_value(es[last].1));
        } else {
            if exists|i: int| 0 <= i < es.len() && es[i].0 == k {
                let i = choose|i: int| 0 <= i < es.len() && es[i].0 == k;
                assert(init[i].0 == k);
            }
            if map_of_entries(es).contains_key(k) {
                let i = choose|i: int|
                    0 <= i < init.len() && init[i].0 == k && map_of_entries(init)[k]
                        == entry_value(init[i].1) && forall|j: int|
                        i < j < init.len() ==> init[j].0 != k;
                assert(es[i] == init[i]);
                assert forall|j: int| i < j < es.len() implies es[j].0 != k by {
                    if j < last {
                        assert(es[j] == init[j]);
                    }
                }
            }
        }
    }
}

} // verus!

verus! {

/// The spacing of the usual written form: `a = "x", b`.
pub open spec fn usual_spacing(es: Seq<Entry>) -> Seq<Spacing> {
    Seq::new(
        es.len(),
        |i: int|
            Spacing {
                before_key: if i == 0 {
                    Seq::empty()
                } else {
                    seq![' ']
                },
                after_key: if es[i].1 is Some {
                    seq![' ']
                } else {
                    Seq::empty()
                },
                after_eq: seq![' '],
                after_value: Seq::empty(),
            },
    )
}

proof fn lemma_write_entries_push(es: Seq<Entry>, sps: Seq<Spacing>, e: Entry, sp: Spacing)
    requires
        sps.len() == es.len(),
    ensures
        write_entries(es.push(e), sps.push(sp)) == if es.len() == 0 {
            write_entry(e, sp)
        } else {
            write_entries(es, sps) + seq![','] + write_entry(e, sp)
        },
    decreases es.len(),
{
    if es.len() == 0 {
        assert(es.push(e) =~= seq![e]);
    } else {
        assert(es.push(e).drop_first() =~= es.drop_first().push(e));
        assert(sps.push(sp).drop_first() =~= sps.drop_first().push(sp));
        lemma_write_entries_push(es.drop_first(), sps.drop_first(), e, sp);
        if es.len() == 1 {
            assert(es.drop_first() =~= Seq::<Entry>::empty());
        }
    }
}

/// Whether every character of `k` is a word character and there is one.
fn check_key(k: &String) -> (r: bool)
    ensures
        r == is_plain_key(k@),
{
    let cs = chars_of(k.as_str());
    if cs.len() == 0 {
        return false;
    }
    let mut i: usize = 0;
    while i < cs.len()
        invariant
            i <= cs@.len(),
            cs@ == k@,
            forall|j: int| 0 <= j < i ==> word_char(#[trigger] cs@[j]),
        decreases cs@.len() - i,
    {
        if !is_word_char(cs[i]) {
            return false;
        }
        i = i + 1;
    }
    true
}

/// Whether `v` holds no double quote.
fn check_value(v: &String) -> (r: bool)
    ensures
        r == is_plain_value(v@),
{
    let cs = chars_of(v.as_str());
    let mut i: usize = 0;
    while i < cs.len()
        invariant
            i <= cs@.len(),
            cs@ == v@,
            forall|j: int| 0 <= j < i ==> #[trigger] cs@[j] != '"',
        decreases cs@.len() - i,
    {
        if cs[i] == '"' {
            return false;
        }
        i = i + 1;
    }
    true
}

/// Writes entries in the usual form, `a = "x", b`, when they can be read back
/// as written: every key a non-empty run of word characters, no value holding
/// a double quote. The text written then reads back as the same entries and
/// attributes.
pub fn write_attributes(items: &Vec<(String, Option<String>)>) -> (r: Option<String>)
    ensures
        r is Some <==> forall|i: int|
            0 <= i < items@.len() ==> is_plain_entry(#[trigger] items.deep_view()[i]),
        r matches Some(t) ==> {
            &&& t@ == write_entries(items.deep_view(), usual_spacing(items.deep_view()))
            &&& entries_from(t@, 0) == items.deep_view()
            &&& attributes_of(t@) == map_of_entries(items.deep_view())
        },
{
    let ghost es = items.deep_view();
    let mut t = String::new();
    let mut i: usize = 0;
    proof {
        reveal_strlit(", ");
        reveal_strlit(" = \"");
        reveal_strlit("\"");
        assert(es.take(0) =~= Seq::<Entry>::empty());
        assert(usual_spacing(es).take(0) =~= Seq::<Spacing>::empty());
    }
    while i < items.len()
        invariant
            i <= items@.len(),
            es == items.deep_view(),
                forall|j: int| 0 <= j < i ==> is_plain_entry(#[trigger] es[j]),
            t@ == write_entries(es.take(i as int), usual_spacing(es).take(i as int)),
            ", "@ == seq![',', ' '],
            " = \""@ == seq![' ', '=', ' ', '"'],
            "\""@ == seq!['"'],
        decreases items@.len() - i,
    {
        assert(es[i as int] == items@[i as int].deep_view());
        if !check_key(&items[i].0) {
            return None;
        }
        let ghost before = t@;
        if i > 0 {
            t.append(", ");
        }
        t.append(items[i].0.as_str());
        match &items[i].1 {
            Some(v) => {
                if !check_value(v) {
                    return None;
                }
                t.append(" = \"");
                t.append(v.as_str());
                t.append("\"");
            },
            None => {},
        }
        proof {
            let sps = usual_spacing(es);
            lemma_write_entries_push(es.take(i as int), sps.take(i as int), es[i as int], sps[i as int]);
            assert(es.take(i + 1) =~= es.take(i as int).push(es[i as int]));
            assert(sps.take(i + 1) =~= sps.take(i as int).push(sps[i as int]));
            let w = write_entry(es[i as int], sps[i as int]);
            if i > 0 {
                assert(t@ =~= before + seq![','] + w);
            } else {
                assert(t@ =~= w);
            }
        }
        i = i + 1;
    }
    proof {
        assert(es.take(i as int) =~= es);
        assert(usual_spacing(es).take(i as int) =~= usual_spacing(es));
        let sps = usual_spacing(es);
        assert forall|j: int| 0 <= j < sps.len() implies spacing_is_white(#[trigger] sps[j]) by {}
        lemma_written_entries_read_back(es, sps, Seq::empty());
        assert(t@ + Seq::<char>::empty() =~= t@);
    }
    Some(t)
}

} // verus!
