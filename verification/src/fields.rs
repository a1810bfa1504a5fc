//! Field lists named in the attributes (`key = "a|b"`, `unique = "c"`) and
//! their resolution against the fields of the struct.

use vstd::prelude::*;
use vstd::string::*;
use crate::attrs::all_white;
use crate::text::{
    chars_of, find_char, find_from, lemma_find_from_bounds, lemma_ws_end_bounds,
    lemma_ws_start_bounds, slice_of, trim, trimmed, white_space, ws_end, ws_start,
};

verus! {

/// The pieces of `s` from `start` on, cut at every `|`.
pub open spec fn segments_from(s: Seq<char>, start: int) -> Seq<Seq<char>>
    decreases s.len() - start,
{
    if start < 0 || start > s.len() {
        Seq::empty()
    } else {
        let p = find_from(s, '|', start);
        if p >= s.len() {
            seq![s.subrange(start, s.len() as int)]
        } else {
            proof {
                lemma_find_from_bounds(s, '|', start);
            }
            seq![s.subrange(start, p)] + segments_from(s, p + 1)
        }
    }
}

/// The pieces of `s` cut at every `|`, as `str::split("|")` gives them.
pub open spec fn segments(s: Seq<char>) -> Seq<Seq<char>> {
    segments_from(s, 0)
}

/// The field a piece names: its trimmed text, or nothing when that is empty.
pub open spec fn field_of(piece: Seq<char>) -> Option<Seq<char>> {
    if trimmed(piece).len() == 0 {
        None
    } else {
        Some(trimmed(piece))
    }
}

/// The fields that pieces name, one entry per piece.
pub open spec fn fields_of(pieces: Seq<Seq<char>>) -> Seq<Option<Seq<char>>> {
    pieces.map_values(|p: Seq<char>| field_of(p))
}

/// The fields that a `|`-separated list names, one entry per piece.
pub open spec fn field_list(s: Seq<char>) -> Seq<Option<Seq<char>>> {
    fields_of(segments(s))
}

/// Pieces put back together with `|` between them.
pub open spec fn join_bars(parts: Seq<Seq<char>>) -> Seq<char>
    decreases parts.len(),
{
    if parts.len() == 0 {
        Seq::empty()
    } else if parts.len() == 1 {
        parts[0]
    } else {
        parts[0] + seq!['|'] + join_bars(parts.drop_first())
    }
}

/// Reads a `|`-separated field list: one entry per piece, holding the piece
/// without surrounding white space, or nothing where that leaves no text.
pub fn split_field_list(s: &str) -> (r: Vec<Option<String>>)
    ensures
        r.deep_view() == field_list(s@),
        lists_pieces(s@, r.deep_view()),
{
    let cs = chars_of(s);
    let n = cs.len();
    let mut out: Vec<Option<String>> = Vec::new();
    let mut start: usize = 0;
    assert(out.deep_view() =~= Seq::<Option<Seq<char>>>::empty());
    loop
        invariant
            n == cs@.len(),
            cs@ == s@,
            start <= n,
            field_list(s@) == out.deep_view() + fields_of(segments_from(s@, start as int)),
        decreases n - start,
    {
        let p = find_char(&cs, '|', start);
        proof {
            lemma_find_from_bounds(s@, '|', start as int);
        }
        let piece = slice_of(s, start, p);
        let t = trim(piece.as_str());
        let entry = if t.unicode_len() == 0 {
            None
        } else {
            Some(t)
        };
        let ghost old_out = out.deep_view();
        out.push(entry);
        proof {
            assert(entry.deep_view() == field_of(s@.subrange(start as int, p as int)));
            assert(out.deep_view() =~= old_out.push(entry.deep_view()));
        }
        if p == n {
            proof {
                assert(segments_from(s@, start as int) =~= seq![
                    s@.subrange(start as int, n as int),
                ]);
                assert(fields_of(segments_from(s@, start as int)) =~= seq![entry.deep_view()]);
                assert(out.deep_view() =~= old_out + fields_of(segments_from(s@, start as int)));
                lemma_field_list_pieces(s@);
            }
            return out;
        }
        proof {
            let rest = segments_from(s@, p + 1);
            assert(segments_from(s@, start as int) == seq![s@.subrange(start as int, p as int)]
                + rest);
            assert(fields_of(segments_from(s@, start as int)) =~= seq![
                field_of(s@.subrange(start as int, p as int)),
            ] + fields_of(rest));
            assert(old_out + fields_of(segments_from(s@, start as int)) =~= out.deep_view()
                + fields_of(rest));
        }
        start = p + 1;
    }
}

/// Cutting at `|` and joining with `|` gives the text back, and no piece holds a `|`.
pub proof fn lemma_segments_join(s: Seq<char>, start: int)
    requires
        0 <= start <= s.len(),
    ensures
        segments_from(s, start).len() >= 1,
        join_bars(segments_from(s, start)) == s.subrange(start, s.len() as int),
        forall|i: int, k: int|
            0 <= i < segments_from(s, start).len() && 0 <= k < segments_from(s, start)[i].len()
                ==> #[trigger] segments_from(s, start)[i][k] != '|',
    decreases s.len() - start,
{
    lemma_find_from_bounds(s, '|', start);
    let p = find_from(s, '|', start);
    let segs = segments_from(s, start);
    if p >= s.len() {
        assert forall|i: int, k: int|
            0 <= i < segs.len() && 0 <= k < segs[i].len() implies #[trigger] segs[i][k] != '|' by {
            assert(segs[i][k] == s[start + k]);
        }
    } else {
        lemma_segments_join(s, p + 1);
        let rest = segments_from(s, p + 1);
        assert(segs.drop_first() =~= rest);
        assert(join_bars(segs) == s.subrange(start, p) + seq!['|'] + join_bars(rest));
        assert(s.subrange(start, s.len() as int) =~= s.subrange(start, p) + seq!['|']
            + s.subrange(p + 1, s.len() as int));
        assert forall|i: int, k: int|
            0 <= i < segs.len() && 0 <= k < segs[i].len() implies #[trigger] segs[i][k] != '|' by {
            if i == 0 {
                assert(segs[i][k] == s[start + k]);
            } else {
                assert(segs[i] == rest[i - 1]);
                assert(rest[i - 1][k] != '|');
            }
        }
    }
}

/// A `|`-separated list splits into pieces that join back to it, none of
/// which holds a `|`.
pub proof fn lemma_split_rejoins(s: Seq<char>)
    ensures
        segments(s).len() >= 1,
        join_bars(segments(s)) == s,
        forall|i: int, k: int|
            0 <= i < segments(s).len() && 0 <= k < segments(s)[i].len() ==> #[trigger] segments(
                s,
            )[i][k] != '|',
{
    lemma_segments_join(s, 0);
    assert(s.subrange(0, s.len() as int) =~= s);
}

/// Trimming leaves no white space at either end, and trimming again changes nothing.
pub proof fn lemma_trim_idempotent(s: Seq<char>)
    ensures
        trimmed(s).len() > 0 ==> !white_space(trimmed(s)[0]) && !white_space(
            trimmed(s)[trimmed(s).len() - 1],
        ),
        trimmed(trimmed(s)) == trimmed(s),
{
    lemma_ws_end_bounds(s, 0);
    lemma_ws_start_bounds(s, s.len() as int);
    let t = trimmed(s);
    let a = ws_end(s, 0);
    let b = ws_start(s, s.len() as int);
    if a < b {
        assert(t[0] == s[a]);
        assert(t[t.len() - 1] == s[b - 1]);
        lemma_ws_end_bounds(t, 0);
        lemma_ws_start_bounds(t, t.len() as int);
        assert(ws_end(t, 0) == 0);
        assert(ws_start(t, t.len() as int) == t.len());
        assert(trimmed(t) =~= t.subrange(0, t.len() as int));
        assert(trimmed(t) =~= t);
    } else {
        assert(t.len() == 0);
        assert(ws_end(t, 0) == 0);
        assert(ws_start(t, 0) == 0);
        assert(trimmed(t) =~= t);
    }
}

} // verus!

verus! {

/// Indices as integers.
pub open spec fn as_ints(v: Seq<usize>) -> Seq<int> {
    v.map_values(|p: usize| p as int)
}

/// The first position at or after `i` whose field is named `name` (or the end).
pub open spec fn first_field(fields: Seq<Seq<char>>, name: Seq<char>, i: int) -> int
    decreases fields.len() - i,
{
    if 0 <= i < fields.len() && fields[i] != name {
        first_field(fields, name, i + 1)
    } else {
        i
    }
}

/// For each named entry of `wanted`, in order, the position of the first field
/// with that name; names that no field has are left out.
pub open spec fn positions_of(wanted: Seq<Option<Seq<char>>>, fields: Seq<Seq<char>>) -> Seq<int>
    decreases wanted.len(),
{
    if wanted.len() == 0 {
        Seq::empty()
    } else {
        let rest = positions_of(wanted.drop_last(), fields);
        match wanted.last() {
            Some(name) => {
                let p = first_field(fields, name, 0);
                if p < fields.len() {
                    rest.push(p)
                } else {
                    rest
                }
            },
            None => rest,
        }
    }
}

proof fn lemma_first_field_bounds(fields: Seq<Seq<char>>, name: Seq<char>, i: int)
    requires
        0 <= i <= fields.len(),
    ensures
        i <= first_field(fields, name, i) <= fields.len(),
        forall|k: int| i <= k < first_field(fields, name, i) ==> #[trigger] fields[k] != name,
        first_field(fields, name, i) < fields.len() ==> fields[first_field(fields, name, i)]
            == name,
    decreases fields.len() - i,
{
    if i < fields.len() && fields[i] != name {
        lemma_first_field_bounds(fields, name, i + 1);
    }
}

/// Position of the first field named `name`, if any.
fn find_field(fields: &Vec<String>, name: &String) -> (r: Option<usize>)
    ensures
        match r {
            Some(p) => p == first_field(fields.deep_view(), name@, 0) && p < fields@.len(),
            None => first_field(fields.deep_view(), name@, 0) == fields@.len(),
        },
{
    let ghost fs = fields.deep_view();
    let mut i: usize = 0;
    while i < fields.len()
        invariant
            i <= fields@.len(),
            fs == fields.deep_view(),
            first_field(fs, name@, 0) == first_field(fs, name@, i as int),
        decreases fields@.len() - i,
    {
        assert(fs[i as int] == fields@[i as int]@);
        if fields[i] == *name {
            return Some(i);
        }
        i = i + 1;
    }
    None
}

/// The positions, among `fields`, of the fields that `wanted` names, in the
/// order of `wanted`; each is the first field with that name, and names that
/// no field has are passed over.
pub fn field_positions(wanted: &Vec<Option<String>>, fields: &Vec<String>) -> (r: Vec<usize>)
    ensures
        r@.len() == positions_of(wanted.deep_view(), fields.deep_view()).len(),
        forall|i: int|
            0 <= i < r@.len() ==> r@[i] as int == #[trigger] positions_of(
                wanted.deep_view(),
                fields.deep_view(),
            )[i],
        forall|i: int| 0 <= i < r@.len() ==> #[trigger] r@[i] < fields@.len(),
        exists|js: Seq<int>|
            #[trigger] answers(
                wanted.deep_view(),
                fields.deep_view(),
                as_ints(r@),
                js,
            ),
{
    let ghost ws = wanted.deep_view();
    let ghost fs = fields.deep_view();
    let mut out: Vec<usize> = Vec::new();
    let mut i: usize = 0;
    while i < wanted.len()
        invariant
            i <= wanted@.len(),
            ws == wanted.deep_view(),
            fs == fields.deep_view(),
            out@.len() == positions_of(ws.take(i as int), fs).len(),
            forall|j: int|
                0 <= j < out@.len() ==> out@[j] as int == #[trigger] positions_of(
                    ws.take(i as int),
                    fs,
                )[j],
        decreases wanted@.len() - i,
    {
        assert(ws.take(i + 1).drop_last() =~= ws.take(i as int));
        assert(ws.take(i + 1).last() == wanted@[i as int].deep_view());
        match &wanted[i] {
            Some(name) => {
                proof {
                    lemma_first_field_bounds(fs, name@, 0);
                }
                match find_field(fields, name) {
                    Some(p) => {
                        out.push(p);
                    },
                    None => {},
                }
            },
            None => {},
        }
        i = i + 1;
    }
    assert(ws.take(wanted@.len() as int) =~= ws);
    proof {
        lemma_positions_complete(ws, fs);
        assert(as_ints(out@) =~= positions_of(ws, fs));
        lemma_positions_name_fields(ws, fs);
        assert forall|i: int| 0 <= i < out@.len() implies #[trigger] out@[i] < fields@.len() by {
            assert(positions_of(ws, fs)[i] < fs.len());
        }
    }
    out
}

/// Every position found names a field of the struct, holds the wanted name,
/// and is the first field with that name.
pub proof fn lemma_positions_name_fields(wanted: Seq<Option<Seq<char>>>, fields: Seq<Seq<char>>)
    ensures
        positions_of(wanted, fields).len() <= wanted.len(),
        forall|i: int|
            0 <= i < positions_of(wanted, fields).len() ==> {
                let p = #[trigger] positions_of(wanted, fields)[i];
                &&& 0 <= p < fields.len()
                &&& exists|j: int| 0 <= j < wanted.len() && wanted[j] == Some(fields[p])
                &&& forall|k: int| 0 <= k < p ==> fields[k] != fields[p]
            },
    decreases wanted.len(),
{
    if wanted.len() > 0 {
        let init = wanted.drop_last();
        lemma_positions_name_fields(init, fields);
        let rest = positions_of(init, fields);
        assert forall|i: int| 0 <= i < positions_of(wanted, fields).len() implies {
            let p = #[trigger] positions_of(wanted, fields)[i];
            &&& 0 <= p < fields.len()
            &&& exists|j: int| 0 <= j < wanted.len() && wanted[j] == Some(fields[p])
            &&& forall|k: int| 0 <= k < p ==> fields[k] != fields[p]
        } by {
            if i < rest.len() {
                assert(positions_of(wanted, fields)[i] == rest[i]);
                let p = rest[i];
                let j = choose|j: int| 0 <= j < init.len() && init[j] == Some(fields[p]);
                assert(wanted[j] == init[j]);
            } else {
                let name = wanted.last()->0;
                lemma_first_field_bounds(fields, name, 0);
                assert(wanted[wanted.len() - 1] == Some(fields[first_field(fields, name, 0)]));
            }
        }
    }
}

/// The format string with one `{}` slot per key field, slots parted by a space.
pub open spec fn format_slots(n: nat) -> Seq<char>
    decreases n,
{
    if n == 0 {
        Seq::empty()
    } else if n == 1 {
        seq!['{', '}']
    } else {
        format_slots((n - 1) as nat) + seq![' ', '{', '}']
    }
}

/// The format string for `count` key fields: `{}` for each, joined by a space.
pub fn key_format_str(count: usize) -> (r: String)
    ensures
        r@ == format_slots(count as nat),
{
    let mut r = String::new();
    let mut i: usize = 0;
    proof {
        reveal_strlit("{}");
        reveal_strlit(" {}");
    }
    while i < count
        invariant
            i <= count,
            r@ == format_slots(i as nat),
            "{}"@ == seq!['{', '}'],
            " {}"@ == seq![' ', '{', '}'],
        decreases count - i,
    {
        if i == 0 {
            r.append("{}");
        } else {
            r.append(" {}");
        }
        i = i + 1;
    }
    r
}

/// The format string for `n` slots is `3n - 1` characters long and holds a
/// `{}` at every third position.
pub proof fn lemma_format_slots_shape(n: nat)
    requires
        n > 0,
    ensures
        format_slots(n).len() == 3 * n - 1,
        forall|i: int|
            0 <= i < n ==> #[trigger] format_slots(n)[3 * i] == '{' && format_slots(n)[3 * i + 1]
                == '}',
        forall|i: int| 0 < i < n ==> #[trigger] format_slots(n)[3 * i - 1] == ' ',
    decreases n,
{
    if n > 1 {
        let m = (n - 1) as nat;
        lemma_format_slots_shape(m);
        let prev = format_slots(m);
        let cur = format_slots(n);
        assert(cur == prev + seq![' ', '{', '}']);
        assert forall|i: int| 0 <= i < n implies #[trigger] cur[3 * i] == '{' && cur[3 * i + 1]
            == '}' by {
            if i < m {
                assert(cur[3 * i] == prev[3 * i]);
                assert(cur[3 * i + 1] == prev[3 * i + 1]);
            } else {
                assert(3 * i == prev.len() + 1);
            }
        }
        assert forall|i: int| 0 < i < n implies #[trigger] cur[3 * i - 1] == ' ' by {
            if i < m {
                assert(cur[3 * i - 1] == prev[3 * i - 1]);
            } else {
                assert(3 * i - 1 == prev.len());
            }
        }
    }
}

} // verus!

verus! {

/// `f` is what the piece names: nothing when the piece is all white space,
/// otherwise the piece's own characters between white space at its ends,
/// starting and ending with a character that is not white space.
pub open spec fn names_piece(piece: Seq<char>, f: Option<Seq<char>>) -> bool {
    match f {
        None => all_white(piece),
        Some(t) => {
            &&& t.len() > 0
            &&& !white_space(t[0])
            &&& !white_space(t[t.len() - 1])
            &&& exists|a: int, b: int|
                0 <= a <= b <= piece.len() && piece.subrange(a, b) == t && all_white(
                    piece.subrange(0, a),
                ) && all_white(piece.subrange(b, piece.len() as int))
        },
    }
}

/// `r` lists, one entry per piece, what the `|`-separated pieces of `s` name:
/// there are pieces free of `|` that join with `|` into `s`, and each entry
/// is what its piece names.
pub open spec fn lists_pieces(s: Seq<char>, r: Seq<Option<Seq<char>>>) -> bool {
    exists|ps: Seq<Seq<char>>|
        {
            &&& ps.len() == r.len()
            &&& join_bars(ps) == s
            &&& forall|i: int, k: int|
                0 <= i < ps.len() && 0 <= k < ps[i].len() ==> #[trigger] ps[i][k] != '|'
            &&& forall|i: int| 0 <= i < ps.len() ==> names_piece(#[trigger] ps[i], r[i])
        }
}

/// A piece is named by its trimmed text: white space around, the name's own
/// characters, unchanged, in between.
pub proof fn lemma_field_of_names_piece(piece: Seq<char>)
    ensures
        names_piece(piece, field_of(piece)),
{
    lemma_ws_end_bounds(piece, 0);
    lemma_ws_start_bounds(piece, piece.len() as int);
    let a = ws_end(piece, 0);
    let b = ws_start(piece, piece.len() as int);
    if a < b {
        let t = piece.subrange(a, b);
        assert(t[0] == piece[a]);
        assert(t[t.len() - 1] == piece[b - 1]);
        assert(all_white(piece.subrange(0, a)));
        assert forall|k: int| 0 <= k < piece.len() - b implies white_space(
            #[trigger] piece.subrange(b, piece.len() as int)[k],
        ) by {
            assert(piece.subrange(b, piece.len() as int)[k] == piece[b + k]);
        }
        assert(0 <= a <= b <= piece.len() && piece.subrange(a, b) == t && all_white(
            piece.subrange(0, a),
        ) && all_white(piece.subrange(b, piece.len() as int)));
        assert(field_of(piece) == Some(t));
    } else {
        assert forall|k: int| 0 <= k < piece.len() implies white_space(#[trigger] piece[k]) by {
            if k >= b {
            } else {
                assert(k < a);
            }
        }
    }
}

/// The field list of a text lists what its `|`-separated pieces name.
pub proof fn lemma_field_list_pieces(s: Seq<char>)
    ensures
        lists_pieces(s, field_list(s)),
{
    lemma_split_rejoins(s);
    let ps = segments(s);
    let r = field_list(s);
    assert forall|i: int| 0 <= i < ps.len() implies names_piece(#[trigger] ps[i], r[i]) by {
        lemma_field_of_names_piece(ps[i]);
    }
    assert(ps.len() == r.len() && join_bars(ps) == s);
}

} // verus!

verus! {

/// The entries of `wanted` that the positions answer, in order: `js[i]` is
/// the entry that position `i` was found for.
pub open spec fn answers(
    wanted: Seq<Option<Seq<char>>>,
    fields: Seq<Seq<char>>,
    pos: Seq<int>,
    js: Seq<int>,
) -> bool {
    &&& js.len() == pos.len()
    &&& forall|i: int, j: int| 0 <= i < j < js.len() ==> #[trigger] js[i] < #[trigger] js[j]
    &&& forall|i: int|
        0 <= i < js.len() ==> 0 <= #[trigger] js[i] < wanted.len() && 0 <= pos[i] < fields.len()
            && wanted[js[i]] == Some(fields[pos[i]])
    &&& forall|i: int, k: int|
        0 <= i < pos.len() && 0 <= k < pos[i] ==> #[trigger] fields[k] != #[trigger] fields[pos[i]]
    &&& forall|k: int|
        0 <= k < wanted.len() && (#[trigger] wanted[k] matches Some(n) && fields.contains(n))
            ==> exists|i: int| 0 <= i < js.len() && js[i] == k
}

proof fn positions_answered(wanted: Seq<Option<Seq<char>>>, fields: Seq<Seq<char>>) -> (js: Seq<int>)
    ensures
        answers(wanted, fields, positions_of(wanted, fields), js),
    decreases wanted.len(),
{
    if wanted.len() == 0 {
        Seq::empty()
    } else {
        let init = wanted.drop_last();
        let last = wanted.len() - 1;
        let js0 = positions_answered(init, fields);
        let pos0 = positions_of(init, fields);
        let pos = positions_of(wanted, fields);
        let js = match wanted.last() {
            Some(name) => {
                lemma_first_field_bounds(fields, name, 0);
                if first_field(fields, name, 0) < fields.len() {
                    js0.push(last)
                } else {
                    js0
                }
            },
            None => js0,
        };
        assert forall|k: int|
            0 <= k < wanted.len() && (#[trigger] wanted[k] matches Some(n) && fields.contains(n))
                implies exists|i: int| 0 <= i < js.len() && js[i] == k by {
            if k < last {
                assert(init[k] == wanted[k]);
                let i = choose|i: int| 0 <= i < js0.len() && js0[i] == k;
                assert(js[i] == k);
            } else {
                let name = wanted[k]->0;
                let t = choose|t: int| 0 <= t < fields.len() && fields[t] == name;
                lemma_first_field_bounds(fields, name, 0);
                assert(first_field(fields, name, 0) <= t);
                assert(js[js.len() - 1] == k);
            }
        }
        assert forall|i: int|
            0 <= i < js.len() implies 0 <= #[trigger] js[i] < wanted.len() && 0 <= pos[i]
            < fields.len() && wanted[js[i]] == Some(fields[pos[i]]) by {
            if i < js0.len() {
                assert(js[i] == js0[i]);
                assert(pos[i] == pos0[i]);
                assert(wanted[js0[i]] == init[js0[i]]);
            }
        }
        assert forall|i: int, k: int|
            0 <= i < pos.len() && 0 <= k < pos[i] implies #[trigger] fields[k] != #[trigger] fields[pos[i]] by {
            if i < pos0.len() {
                assert(pos[i] == pos0[i]);
            }
        }
        js
    }
}

/// The positions answer, in order, exactly the entries of `wanted` whose
/// name some field has: each position holds the wanted name, none of those
/// entries is passed over, and none is answered twice or out of order.
pub proof fn lemma_positions_complete(wanted: Seq<Option<Seq<char>>>, fields: Seq<Seq<char>>)
    ensures
        exists|js: Seq<int>| answers(wanted, fields, positions_of(wanted, fields), js),
{
    let js = positions_answered(wanted, fields);
}

} // verus!
