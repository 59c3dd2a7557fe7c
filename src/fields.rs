//! Splitting a line of delimited text whose fields escape the delimiter and
//! the backslash with a backslash.

use vstd::prelude::*;
use crate::text::{chars_of, string_of};

verus! {

/// Scanner state: the fields closed so far, the field being read, and
/// whether the previous character was an escaping backslash.
pub type ScanState = (Seq<Seq<char>>, Seq<char>, bool);

/// The views of a sequence of character vectors.
pub open spec fn views(v: Seq<Vec<char>>) -> Seq<Seq<char>> {
    v.map_values(|f: Vec<char>| f@)
}

/// The views of a sequence of strings.
pub open spec fn string_views(v: Seq<String>) -> Seq<Seq<char>> {
    v.map_values(|f: String| f@)
}

/// The state before any character is read.
pub open spec fn scan_start() -> ScanState {
    (Seq::empty(), Seq::empty(), false)
}

/// Reads one character: an escaped character is taken literally, a
/// backslash escapes the next one and is dropped, an unescaped delimiter
/// closes the current field.
pub open spec fn scan_step(st: ScanState, c: char, sep: char) -> ScanState {
    if st.2 {
        (st.0, st.1.push(c), false)
    } else if c == '\\' {
        (st.0, st.1, true)
    } else if c == sep {
        (st.0.push(st.1), Seq::empty(), false)
    } else {
        (st.0, st.1.push(c), false)
    }
}

/// Reads the characters of `s` in order, starting from `st`.
pub open spec fn scan(st: ScanState, s: Seq<char>, sep: char) -> ScanState
    decreases s.len(),
{
    if s.len() == 0 {
        st
    } else {
        scan_step(scan(st, s.drop_last(), sep), s.last(), sep)
    }
}

/// The fields of a line: the end of the line closes the last field, so a
/// line without delimiters has exactly one field.
pub open spec fn split_fields(s: Seq<char>, sep: char) -> Seq<Seq<char>> {
    let st = scan(scan_start(), s, sep);
    st.0.push(st.1)
}

/// The escaped form of one character.
pub open spec fn escape_char(c: char, sep: char) -> Seq<char> {
    if c == '\\' || c == sep {
        seq!['\\', c]
    } else {
        seq![c]
    }
}

/// The escaped form of a field.
pub open spec fn escape_field(f: Seq<char>, sep: char) -> Seq<char>
    decreases f.len(),
{
    if f.len() == 0 {
        Seq::empty()
    } else {
        escape_field(f.drop_last(), sep) + escape_char(f.last(), sep)
    }
}

/// The line that holds the given fields, each escaped, joined by the delimiter.
pub open spec fn join_fields(fields: Seq<Seq<char>>, sep: char) -> Seq<char>
    decreases fields.len(),
{
    if fields.len() <= 1 {
        if fields.len() == 1 {
            escape_field(fields[0], sep)
        } else {
            Seq::empty()
        }
    } else {
        join_fields(fields.drop_last(), sep).push(sep) + escape_field(fields.last(), sep)
    }
}

proof fn lemma_scan_append(st: ScanState, a: Seq<char>, b: Seq<char>, sep: char)
    ensures
        scan(st, a + b, sep) == scan(scan(st, a, sep), b, sep),
    decreases b.len(),
{
    if b.len() == 0 {
        assert(a + b =~= a);
    } else {
        assert((a + b).drop_last() =~= a + b.drop_last());
        assert((a + b).last() == b.last());
        lemma_scan_append(st, a, b.drop_last(), sep);
    }
}

proof fn lemma_scan_escaped(done: Seq<Seq<char>>, cur: Seq<char>, f: Seq<char>, sep: char)
    requires
        sep != '\\',
    ensures
        scan((done, cur, false), escape_field(f, sep), sep) == (done, cur + f, false),
    decreases f.len(),
{
    let st: ScanState = (done, cur, false);
    if f.len() == 0 {
        assert(cur + f =~= cur);
    } else {
        let x = f.last();
        let e = escape_char(x, sep);
        lemma_scan_escaped(done, cur, f.drop_last(), sep);
        lemma_scan_append(st, escape_field(f.drop_last(), sep), e, sep);
        let mid: ScanState = (done, cur + f.drop_last(), false);
        assert(escape_field(f, sep) == escape_field(f.drop_last(), sep) + e);
        if x == '\\' || x == sep {
            assert(e.drop_last() =~= seq!['\\']);
            assert(e.drop_last().drop_last() =~= Seq::<char>::empty());
            assert(scan(mid, e.drop_last().drop_last(), sep) == mid);
            assert(scan(mid, e.drop_last(), sep) == (done, cur + f.drop_last(), true));
        } else {
            assert(e.drop_last() =~= Seq::<char>::empty());
            assert(scan(mid, e.drop_last(), sep) == mid);
        }
        assert(scan(mid, e, sep) == (done, (cur + f.drop_last()).push(x), false));
        assert((cur + f.drop_last()).push(x) =~= cur + f);
    }
}

proof fn lemma_scan_joined(fields: Seq<Seq<char>>, sep: char)
    requires
        fields.len() >= 1,
        sep != '\\',
    ensures
        scan(scan_start(), join_fields(fields, sep), sep) == (fields.drop_last(), fields.last(), false),
    decreases fields.len(),
{
    if fields.len() == 1 {
        lemma_scan_escaped(Seq::empty(), Seq::empty(), fields[0], sep);
        assert(Seq::<char>::empty() + fields[0] =~= fields[0]);
        assert(fields.drop_last() =~= Seq::<Seq<char>>::empty());
    } else {
        let front = fields.drop_last();
        let head = join_fields(front, sep).push(sep);
        lemma_scan_joined(front, sep);
        lemma_scan_append(scan_start(), head, escape_field(fields.last(), sep), sep);
        assert(head.drop_last() =~= join_fields(front, sep));
        assert(front.drop_last().push(front.last()) =~= front);
        lemma_scan_escaped(front, Seq::empty(), fields.last(), sep);
        assert(Seq::<char>::empty() + fields.last() =~= fields.last());
    }
}

/// Escaping each field, joining with the delimiter and splitting again gives
/// back the fields exactly.
pub proof fn lemma_split_join_round_trip(fields: Seq<Seq<char>>, sep: char)
    requires
        fields.len() >= 1,
        sep != '\\',
    ensures
        split_fields(join_fields(fields, sep), sep) == fields,
{
    lemma_scan_joined(fields, sep);
    assert(fields.drop_last().push(fields.last()) =~= fields);
}

/// Splits characters into fields.
pub fn split_chars(v: &Vec<char>, sep: char) -> (r: Vec<Vec<char>>)
    ensures
        views(r@) == split_fields(v@, sep),
{
    let mut out: Vec<Vec<char>> = Vec::new();
    let mut cur: Vec<char> = Vec::new();
    let mut esc = false;
    let mut i: usize = 0;
    assert(v@.subrange(0, 0) =~= Seq::<char>::empty());
    assert(views(out@) =~= Seq::<Seq<char>>::empty());
    while i < v.len()
        invariant
            i <= v.len(),
            (views(out@), cur@, esc) == scan(scan_start(), v@.subrange(0, i as int), sep),
        decreases v.len() - i,
    {
        let ch = v[i];
        proof {
            let p = v@.subrange(0, i as int + 1);
            assert(p.drop_last() =~= v@.subrange(0, i as int));
            assert(p.last() == ch);
        }
        if esc {
            cur.push(ch);
            esc = false;
        } else if ch == '\\' {
            esc = true;
        } else if ch == sep {
            let ghost before = out@;
            out.push(cur);
            cur = Vec::new();
            proof {
                assert(views(out@) =~= views(before).push(views(out@).last()));
            }
        } else {
            cur.push(ch);
        }
        i += 1;
    }
    assert(v@.subrange(0, v.len() as int) =~= v@);
    let ghost before = out@;
    out.push(cur);
    assert(views(out@) =~= views(before).push(views(out@).last()));
    out
}

/// Splits a line at each unescaped `sep`, dropping the escaping backslashes.
pub fn split_escaped(line: &str, sep: char) -> (r: Vec<String>)
    ensures
        string_views(r@) == split_fields(line@, sep),
{
    let v = chars_of(line);
    let parts = split_chars(&v, sep);
    let mut out: Vec<String> = Vec::new();
    let mut i: usize = 0;
    assert(string_views(out@) =~= views(parts@).subrange(0, 0));
    while i < parts.len()
        invariant
            i <= parts.len(),
            out.len() == i,
            views(parts@) == split_fields(line@, sep),
            string_views(out@) == views(parts@).subrange(0, i as int),
        decreases parts.len() - i,
    {
        let s = string_of(&parts[i]);
        let ghost before = out@;
        out.push(s);
        assert(out@ == before.push(s));
        assert(views(parts@)[i as int] == parts@[i as int]@);
        assert forall|k: int| 0 <= k < i + 1 implies #[trigger] string_views(out@)[k] == views(parts@)[k] by {
            if k < i {
                assert(string_views(before)[k] == views(parts@).subrange(0, i as int)[k]);
                assert(out@[k] == before[k]);
            } else {
                assert(out@[k] == s);
            }
        }
        assert(string_views(out@) =~= views(parts@).subrange(0, i as int + 1));
        i += 1;
    }
    assert(views(parts@).subrange(0, parts.len() as int) =~= views(parts@));
    out
}

} // verus!
