//! The simple CSV files that the command line reads: lines, records of
//! comma-separated trimmed fields, and the dataset they describe.

use vstd::prelude::*;
use vstd::std_specs::iter::IteratorSpec;

use crate::dataset::{distinct_keys, lookup, DatasetModel, NominalDataset, RowModel};
use crate::text::{decimal, decimal_string};

verus! {

broadcast use vstd::string::group_string_axioms;

/// The characters of `t`.
pub fn text_chars(t: &str) -> (r: Vec<char>)
    ensures
        r@ == t@,
{
    let mut it = t.chars();
    let mut v: Vec<char> = Vec::new();
    assert(it.remaining() == t@);
    loop
        invariant_except_break
            v@ + it.remaining() == t@,
            it.obeys_prophetic_iter_laws(),
        ensures
            v@ == t@,
        decreases t@.len() - v@.len(),
    {
        let ghost before = it.remaining();
        match it.next() {
            Some(c) => {
                assert(before.len() > 0);
                assert(v@.push(c) + it.remaining() =~= v@ + before);
                v.push(c);
            },
            None => {
                assert(v@ =~= t@);
                break;
            },
        }
    }
    v
}


/// Appends `c` to `s` (`String::push`).
#[verifier::external_body]
fn push_char(s: &mut String, c: char)
    ensures
        final(s)@ == old(s)@.push(c),
{
    s.push(c);
}

/// The characters `from` to `to` of `v` as a string.
pub fn string_of(v: &Vec<char>, from: usize, to: usize) -> (r: String)
    requires
        from <= to <= v.len(),
    ensures
        r@ == v@.subrange(from as int, to as int),
{
    let mut r = String::new();
    let mut i = from;
    while i < to
        invariant
            from <= i <= to,
            to <= v.len(),
            r@ == v@.subrange(from as int, i as int),
        decreases to - i,
    {
        push_char(&mut r, v[i]);
        assert(r@ =~= v@.subrange(from as int, i + 1));
        i = i + 1;
    }
    r
}

/// The pieces of `s` between the occurrences of `sep` (one more piece than
/// there are separators).
pub open spec fn split_on(s: Seq<char>, sep: char) -> Seq<Seq<char>>
    decreases s.len(),
{
    if s.len() == 0 {
        seq![Seq::empty()]
    } else if s.last() == sep {
        split_on(s.drop_last(), sep).push(Seq::empty())
    } else {
        let p = split_on(s.drop_last(), sep);
        p.update(p.len() - 1, p.last().push(s.last()))
    }
}

pub proof fn lemma_split_on_nonempty(s: Seq<char>, sep: char)
    ensures
        split_on(s, sep).len() >= 1,
    decreases s.len(),
{
    if s.len() > 0 {
        lemma_split_on_nonempty(s.drop_last(), sep);
    }
}

/// `s` without one carriage return at its end.
pub open spec fn strip_cr(s: Seq<char>) -> Seq<char> {
    if s.len() > 0 && s.last() == '\r' {
        s.drop_last()
    } else {
        s
    }
}

/// The lines of `t` as `str::lines` gives them: split at each `\n`, a `\r`
/// before the `\n` removed, no line after a final `\n`.
pub open spec fn text_lines(t: Seq<char>) -> Seq<Seq<char>> {
    let p = split_on(t, '\n');
    let terminated = p.drop_last().map_values(|l: Seq<char>| strip_cr(l));
    if p.last().len() == 0 {
        terminated
    } else {
        terminated.push(p.last())
    }
}

/// Splits the characters of `v` at each `sep`, giving the bounds of each piece.
fn split_bounds(v: &Vec<char>, sep: char) -> (r: Vec<(usize, usize)>)
    ensures
        r.len() == split_on(v@, sep).len(),
        forall|k: int| 0 <= k < r.len() ==> (#[trigger] r@[k]).0 <= r@[k].1 && r@[k].1 <= v.len(),
        forall|k: int|
            0 <= k < r.len() ==> v@.subrange(r@[k].0 as int, r@[k].1 as int)
                == #[trigger] split_on(v@, sep)[k],
{
    let mut r: Vec<(usize, usize)> = Vec::new();
    let mut start: usize = 0;
    let mut i: usize = 0;
    while i < v.len()
        invariant
            start <= i <= v.len(),
            r.len() + 1 == split_on(v@.take(i as int), sep).len(),
            forall|k: int| 0 <= k < r.len() ==> (#[trigger] r@[k]).0 <= r@[k].1 && r@[k].1 <= i,
            forall|k: int|
                0 <= k < r.len() ==> v@.subrange(r@[k].0 as int, r@[k].1 as int)
                    == #[trigger] split_on(v@.take(i as int), sep)[k],
            v@.subrange(start as int, i as int) == split_on(v@.take(i as int), sep).last(),
        decreases v.len() - i,
    {
        let ghost prefix = v@.take(i as int);
        let ghost next = v@.take(i + 1);
        assert(next.drop_last() =~= prefix);
        assert(next.last() == v@[i as int]);
        proof {
            lemma_split_on_nonempty(prefix, sep);
        }
        let ghost old_r = r@;
        let ghost sp = split_on(prefix, sep);
        let ghost sn = split_on(next, sep);
        if v[i] == sep {
            r.push((start, i));
            start = i + 1;
            assert(v@.subrange(start as int, i + 1) =~= Seq::<char>::empty());
            assert(sn == sp.push(Seq::<char>::empty()));
            assert forall|k: int| 0 <= k < r.len() implies v@.subrange(r@[k].0 as int, r@[k].1 as int)
                == #[trigger] split_on(next, sep)[k] by {
                if k < old_r.len() {
                    assert(r@[k] == old_r[k]);
                    assert(sn[k] == sp[k]);
                } else {
                    assert(sn[k] == sp.last());
                }
            }
        } else {
            assert(v@.subrange(start as int, i + 1) =~= v@.subrange(start as int, i as int).push(
                v@[i as int],
            ));
            assert(sn == sp.update(sp.len() - 1, sp.last().push(v@[i as int])));
            assert forall|k: int| 0 <= k < r.len() implies v@.subrange(r@[k].0 as int, r@[k].1 as int)
                == #[trigger] split_on(next, sep)[k] by {
                assert(sn[k] == sp[k]);
            }
        }
        assert forall|k: int| 0 <= k < r.len() implies (#[trigger] r@[k]).0 <= r@[k].1 && r@[k].1 <= i + 1 by {
            if k < old_r.len() {
                assert(r@[k] == old_r[k]);
            }
        }
        i = i + 1;
    }
    assert(v@.take(v.len() as int) =~= v@);
    let ghost old_r = r@;
    let ghost sv = split_on(v@, sep);
    r.push((start, v.len()));
    assert forall|k: int| 0 <= k < r.len() implies v@.subrange(r@[k].0 as int, r@[k].1 as int)
        == #[trigger] split_on(v@, sep)[k] by {
        if k < old_r.len() {
            assert(r@[k] == old_r[k]);
            assert(split_on(v@.take(v.len() as int), sep)[k] == sv[k]);
        } else {
            assert(split_on(v@.take(v.len() as int), sep).last() == sv.last());
        }
    }
    r
}

/// The lines of `t`, as `str::lines` gives them.
pub fn lines(t: &str) -> (r: Vec<String>)
    ensures
        r.deep_view() == text_lines(t@),
{
    let v = text_chars(t);
    let bounds = split_bounds(&v, '\n');
    let ghost p = split_on(v@, '\n');
    proof {
        lemma_split_on_nonempty(v@, '\n');
    }
    assert forall|j: int| 0 <= j < bounds.len() implies v@.subrange(bounds@[j].0 as int, bounds@[j].1 as int)
        == #[trigger] p[j] by {
        assert(split_on(v@, '\n')[j] == p[j]);
    }
    let mut r: Vec<String> = Vec::new();
    let n = bounds.len();
    let mut k: usize = 0;
    while k + 1 < n
        invariant
            n == bounds.len(),
            n == p.len(),
            n >= 1,
            p == split_on(v@, '\n'),
            k + 1 <= n,
            forall|j: int| 0 <= j < bounds.len() ==> (#[trigger] bounds@[j]).0 <= bounds@[j].1 && bounds@[j].1 <= v.len(),
            forall|j: int|
                0 <= j < bounds.len() ==> v@.subrange(bounds@[j].0 as int, bounds@[j].1 as int)
                    == #[trigger] p[j],
            r.deep_view() =~= p.take(k as int).map_values(|l: Seq<char>| strip_cr(l)),
        decreases n - k,
    {
        let (a, b) = bounds[k];
        assert(p[k as int] == v@.subrange(a as int, b as int));
        let end = if b > a && v[b - 1] == '\r' {
            b - 1
        } else {
            b
        };
        let line = string_of(&v, a, end);
        assert(line@ =~= strip_cr(p[k as int]));
        let ghost before = r.deep_view();
        r.push(line);
        assert(r.deep_view() =~= before.push(strip_cr(p[k as int])));
        k = k + 1;
    }
    assert(p.take(k as int) =~= p.drop_last());
    let (a, b) = bounds[n - 1];
    assert(p.last() == v@.subrange(a as int, b as int));
    if b > a {
        let ghost before = r.deep_view();
        r.push(string_of(&v, a, b));
        assert(r.deep_view() =~= before.push(p.last()));
    }
    r
}


/// The characters of the Unicode `White_Space` property, which `str::trim`
/// removes.
pub open spec fn is_white_space(c: char) -> bool {
    let u = c as u32;
    ||| 0x9 <= u <= 0xD
    ||| u == 0x20
    ||| u == 0x85
    ||| u == 0xA0
    ||| u == 0x1680
    ||| 0x2000 <= u <= 0x200A
    ||| u == 0x2028
    ||| u == 0x2029
    ||| u == 0x202F
    ||| u == 0x205F
    ||| u == 0x3000
}

fn white_space(c: char) -> (r: bool)
    ensures
        r == is_white_space(c),
{
    let u = c as u32;
    (0x9 <= u && u <= 0xD) || u == 0x20 || u == 0x85 || u == 0xA0 || u == 0x1680 || (0x2000 <= u
        && u <= 0x200A) || u == 0x2028 || u == 0x2029 || u == 0x202F || u == 0x205F || u == 0x3000
}

/// `s` without its leading white space.
pub open spec fn trim_front(s: Seq<char>) -> Seq<char>
    decreases s.len(),
{
    if s.len() > 0 && is_white_space(s[0]) {
        trim_front(s.drop_first())
    } else {
        s
    }
}

/// `s` without its trailing white space.
pub open spec fn trim_back(s: Seq<char>) -> Seq<char>
    decreases s.len(),
{
    if s.len() > 0 && is_white_space(s.last()) {
        trim_back(s.drop_last())
    } else {
        s
    }
}

/// `s` without leading and trailing white space (`str::trim`).
pub open spec fn trimmed(s: Seq<char>) -> Seq<char> {
    trim_back(trim_front(s))
}

/// The bounds of the characters `from` to `to` of `v` without leading and
/// trailing white space.
fn trim_bounds(v: &Vec<char>, from: usize, to: usize) -> (r: (usize, usize))
    requires
        from <= to <= v.len(),
    ensures
        from <= r.0 <= r.1 <= to,
        v@.subrange(r.0 as int, r.1 as int) == trimmed(v@.subrange(from as int, to as int)),
{
    let mut a = from;
    while a < to && white_space(v[a])
        invariant
            from <= a <= to,
            to <= v.len(),
            trim_front(v@.subrange(from as int, to as int)) == trim_front(v@.subrange(a as int, to as int)),
        decreases to - a,
    {
        assert(v@.subrange(a as int, to as int).drop_first() =~= v@.subrange(a + 1, to as int));
        a = a + 1;
    }
    assert(trim_front(v@.subrange(a as int, to as int)) == v@.subrange(a as int, to as int));
    let mut b = to;
    while b > a && white_space(v[b - 1])
        invariant
            from <= a <= b <= to,
            to <= v.len(),
            trim_back(v@.subrange(a as int, to as int)) == trim_back(v@.subrange(a as int, b as int)),
        decreases b - a,
    {
        assert(v@.subrange(a as int, b as int).drop_last() =~= v@.subrange(a as int, b - 1));
        b = b - 1;
    }
    (a, b)
}

/// `t` without leading and trailing white space.
pub fn trim(t: &str) -> (r: String)
    ensures
        r@ == trimmed(t@),
{
    let v = text_chars(t);
    let (a, b) = trim_bounds(&v, 0, v.len());
    assert(v@.subrange(0, v.len() as int) =~= v@);
    string_of(&v, a, b)
}

/// The fields of a record: the pieces of `line` between commas, each trimmed.
pub open spec fn record_fields(line: Seq<char>) -> Seq<Seq<char>> {
    split_on(line, ',').map_values(|f: Seq<char>| trimmed(f))
}

/// How many characters of `s` equal `c`.
pub open spec fn count_char(s: Seq<char>, c: char) -> nat
    decreases s.len(),
{
    if s.len() == 0 {
        0
    } else {
        count_char(s.drop_last(), c) + if s.last() == c { 1nat } else { 0nat }
    }
}

/// The texts of `fields` joined with `sep` between them.
pub open spec fn join_on(fields: Seq<Seq<char>>, sep: char) -> Seq<char>
    decreases fields.len(),
{
    if fields.len() == 0 {
        Seq::empty()
    } else if fields.len() == 1 {
        fields[0]
    } else {
        join_on(fields.drop_last(), sep).push(sep) + fields.last()
    }
}

proof fn lemma_split_on_len(s: Seq<char>, sep: char)
    ensures
        split_on(s, sep).len() == count_char(s, sep) + 1,
    decreases s.len(),
{
    if s.len() > 0 {
        lemma_split_on_len(s.drop_last(), sep);
    }
}

proof fn lemma_split_on_append_plain(a: Seq<char>, b: Seq<char>, sep: char)
    requires
        !b.contains(sep),
    ensures
        split_on(a + b, sep) == split_on(a, sep).update(
            split_on(a, sep).len() - 1,
            split_on(a, sep).last() + b,
        ),
    decreases b.len(),
{
    let p = split_on(a, sep);
    lemma_split_on_nonempty(a, sep);
    if b.len() == 0 {
        assert(a + b =~= a);
        assert(p.last() + b =~= p.last());
        assert(p.update(p.len() - 1, p.last() + b) =~= p);
    } else {
        let bd = b.drop_last();
        assert(!bd.contains(sep)) by {
            if bd.contains(sep) {
                let j = choose|j: int| 0 <= j < bd.len() && bd[j] == sep;
                assert(b[j] == sep);
            }
        }
        lemma_split_on_append_plain(a, bd, sep);
        assert((a + b).drop_last() =~= a + bd);
        assert((a + b).last() == b.last());
        assert(b.last() != sep) by {
            assert(b[b.len() - 1] == b.last());
        }
        let q = split_on(a + bd, sep);
        assert(q.last() == p.last() + bd);
        assert((p.last() + bd).push(b.last()) =~= p.last() + b);
        assert(q.update(q.len() - 1, q.last().push(b.last())) =~= p.update(p.len() - 1, p.last() + b));
    }
}

proof fn lemma_split_on_join(fields: Seq<Seq<char>>, sep: char)
    requires
        fields.len() >= 1,
        forall|i: int| 0 <= i < fields.len() ==> !(#[trigger] fields[i]).contains(sep),
    ensures
        split_on(join_on(fields, sep), sep) == fields,
    decreases fields.len(),
{
    if fields.len() == 1 {
        let e = Seq::<char>::empty();
        assert(fields[0] =~= e + fields[0]);
        lemma_split_on_append_plain(e, fields[0], sep);
        assert(split_on(e, sep) =~= seq![e]);
        assert(seq![e].update(0, e + fields[0]) =~= fields);
    } else {
        let init = fields.drop_last();
        assert forall|i: int| 0 <= i < init.len() implies !(#[trigger] init[i]).contains(sep) by {
            assert(init[i] == fields[i]);
        }
        lemma_split_on_join(init, sep);
        let a = join_on(init, sep);
        let ap = a.push(sep);
        assert(ap.drop_last() =~= a);
        assert(split_on(ap, sep) == init.push(Seq::<char>::empty()));
        assert(!fields.last().contains(sep)) by {
            assert(fields[fields.len() - 1] == fields.last());
        }
        lemma_split_on_append_plain(ap, fields.last(), sep);
        let z = init.push(Seq::<char>::empty());
        assert(z.last() + fields.last() =~= fields.last());
        assert(z.update(z.len() - 1, z.last() + fields.last()) =~= fields);
    }
}

/// A line has one field more than it has commas.
pub proof fn lemma_record_fields_count(line: Seq<char>)
    ensures
        record_fields(line).len() == count_char(line, ',') + 1,
{
    lemma_split_on_len(line, ',');
}

/// Joining with commas fields that hold no comma and have no white space at
/// either end, then splitting the line into its trimmed fields, gives those
/// fields back.
pub proof fn lemma_record_fields_round_trip(fields: Seq<Seq<char>>)
    requires
        fields.len() >= 1,
        forall|i: int| 0 <= i < fields.len() ==> !(#[trigger] fields[i]).contains(','),
        forall|i: int| 0 <= i < fields.len() ==> trimmed(#[trigger] fields[i]) == fields[i],
    ensures
        record_fields(join_on(fields, ',')) == fields,
{
    lemma_split_on_join(fields, ',');
    assert(record_fields(join_on(fields, ',')) =~= fields);
}

/// Splits a line into its comma-separated fields, each trimmed.
pub fn parse_record(line: &str) -> (r: Vec<String>)
    ensures
        r.deep_view() == record_fields(line@),
{
    let v = text_chars(line);
    let bounds = split_bounds(&v, ',');
    let ghost p = split_on(v@, ',');
    let mut r: Vec<String> = Vec::new();
    let mut k: usize = 0;
    while k < bounds.len()
        invariant
            p == split_on(v@, ','),
            bounds.len() == p.len(),
            forall|j: int| 0 <= j < bounds.len() ==> (#[trigger] bounds@[j]).0 <= bounds@[j].1 && bounds@[j].1 <= v.len(),
            forall|j: int|
                0 <= j < bounds.len() ==> v@.subrange(bounds@[j].0 as int, bounds@[j].1 as int)
                    == #[trigger] split_on(v@, ',')[j],
            k <= bounds.len(),
            r.deep_view() =~= p.take(k as int).map_values(|f: Seq<char>| trimmed(f)),
        decreases bounds.len() - k,
    {
        let (a, b) = bounds[k];
        assert(bounds@[k as int] == (a, b));
        assert(v@.subrange(a as int, b as int) == split_on(v@, ',')[k as int]);
        let (c, d) = trim_bounds(&v, a, b);
        let ghost before = r.deep_view();
        r.push(string_of(&v, c, d));
        assert(r.deep_view() =~= before.push(trimmed(p[k as int])));
        k = k + 1;
    }
    assert(p.take(bounds.len() as int) =~= p);
    r
}

/// The lines of `ls` that hold more than white space, in order.
pub open spec fn nonblank(ls: Seq<Seq<char>>) -> Seq<Seq<char>>
    decreases ls.len(),
{
    if ls.len() == 0 {
        ls
    } else if trimmed(ls.last()).len() == 0 {
        nonblank(ls.drop_last())
    } else {
        nonblank(ls.drop_last()).push(ls.last())
    }
}

/// The lines of `t` that hold more than white space, in order.
pub fn nonblank_lines(t: &str) -> (r: Vec<String>)
    ensures
        r.deep_view() == nonblank(text_lines(t@)),
{
    let all = lines(t);
    let ghost av = all.deep_view();
    let mut r: Vec<String> = Vec::new();
    let mut i: usize = 0;
    while i < all.len()
        invariant
            av == all.deep_view(),
            i <= all.len(),
            r.deep_view() == nonblank(av.take(i as int)),
        decreases all.len() - i,
    {
        assert(av.take(i + 1).drop_last() =~= av.take(i as int));
        let t = trim(all[i].as_str());
        if t.as_str().unicode_len() > 0 {
            let ghost before = r.deep_view();
            r.push(all[i].clone());
            assert(r.deep_view() =~= before.push(av[i as int]));
        }
        i = i + 1;
    }
    assert(av.take(all.len() as int) =~= av);
    r
}


/// The index of the first element of `s` equal to `x`, if any.
pub open spec fn first_index(s: Seq<Seq<char>>, x: Seq<char>) -> Option<int>
    decreases s.len(),
{
    if s.len() == 0 {
        None
    } else {
        match first_index(s.drop_last(), x) {
            Some(i) => Some(i),
            None => if s.last() == x {
                Some(s.len() - 1)
            } else {
                None
            },
        }
    }
}

proof fn lemma_first_index_prefix(s: Seq<Seq<char>>, x: Seq<char>, n: int, m: int)
    requires
        0 <= n <= m <= s.len(),
        first_index(s.take(n), x) is Some,
    ensures
        first_index(s.take(m), x) == first_index(s.take(n), x),
    decreases m - n,
{
    if m > n {
        lemma_first_index_prefix(s, x, n, m - 1);
        assert(s.take(m).drop_last() =~= s.take(m - 1));
    }
}

/// The index of the first element of `s` equal to `x`, if any.
pub fn find_index(s: &Vec<String>, x: &str) -> (r: Option<usize>)
    ensures
        r matches Some(i) ==> i < s.len() && first_index(s.deep_view(), x@) == Some(i as int),
        r is None ==> first_index(s.deep_view(), x@) is None,
{
    let ghost sv = s.deep_view();
    let mut i: usize = 0;
    while i < s.len()
        invariant
            sv == s.deep_view(),
            i <= s.len(),
            first_index(sv.take(i as int), x@) is None,
        decreases s.len() - i,
    {
        assert(sv.take(i + 1).drop_last() =~= sv.take(i as int));
        if crate::text::text_eq(s[i].as_str(), x) {
            assert(first_index(sv.take(i + 1), x@) == Some(i as int));
            proof {
                lemma_first_index_prefix(sv, x@, i + 1, sv.len() as int);
            }
            assert(sv.take(sv.len() as int) =~= sv);
            return Some(i);
        }
        i = i + 1;
    }
    assert(sv.take(s.len() as int) =~= sv);
    None
}

/// The index of the first entry of `row` for `key`, if any.
pub open spec fn key_index(row: RowModel, key: Seq<char>) -> Option<int>
    decreases row.len(),
{
    if row.len() == 0 {
        None
    } else {
        match key_index(row.drop_last(), key) {
            Some(i) => Some(i),
            None => if row.last().0 == key {
                Some(row.len() - 1)
            } else {
                None
            },
        }
    }
}

/// `row` with `key` set to `value`: the entry of `key` replaced in place, or
/// a new entry at the end.
pub open spec fn insert_entry(row: RowModel, key: Seq<char>, value: Seq<char>) -> RowModel {
    match key_index(row, key) {
        Some(i) => row.update(i, (key, value)),
        None => row.push((key, value)),
    }
}

proof fn lemma_key_index_prefix(s: RowModel, x: Seq<char>, n: int, m: int)
    requires
        0 <= n <= m <= s.len(),
        key_index(s.take(n), x) is Some,
    ensures
        key_index(s.take(m), x) == key_index(s.take(n), x),
    decreases m - n,
{
    if m > n {
        lemma_key_index_prefix(s, x, n, m - 1);
        assert(s.take(m).drop_last() =~= s.take(m - 1));
    }
}

proof fn lemma_key_index_some(row: RowModel, k: Seq<char>)
    ensures
        match key_index(row, k) {
            Some(i) => 0 <= i < row.len() && row[i].0 == k && forall|j: int|
                0 <= j < i ==> #[trigger] row[j].0 != k,
            None => forall|j: int| 0 <= j < row.len() ==> #[trigger] row[j].0 != k,
        },
    decreases row.len(),
{
    if row.len() > 0 {
        lemma_key_index_some(row.drop_last(), k);
        let p = row.drop_last();
        match key_index(p, k) {
            Some(i) => {
                assert forall|j: int| 0 <= j < i implies #[trigger] row[j].0 != k by {
                    assert(p[j] == row[j]);
                }
                assert(p[i] == row[i]);
            },
            None => {
                assert forall|j: int| 0 <= j < row.len() - 1 implies #[trigger] row[j].0 != k by {
                    assert(p[j] == row[j]);
                }
            },
        }
    }
}

proof fn lemma_lookup_first(row: RowModel, k: Seq<char>, i: int)
    requires
        0 <= i < row.len(),
        row[i].0 == k,
        forall|j: int| 0 <= j < i ==> #[trigger] row[j].0 != k,
    ensures
        lookup(row, k) == Some(row[i].1),
    decreases i,
{
    if i > 0 {
        assert forall|j: int| 0 <= j < i - 1 implies #[trigger] row.drop_first()[j].0 != k by {
            assert(row.drop_first()[j] == row[j + 1]);
        }
        lemma_lookup_first(row.drop_first(), k, i - 1);
        assert(row[0].0 != k);
    }
}

proof fn lemma_lookup_none(row: RowModel, k: Seq<char>)
    requires
        forall|j: int| 0 <= j < row.len() ==> #[trigger] row[j].0 != k,
    ensures
        lookup(row, k) is None,
    decreases row.len(),
{
    if row.len() > 0 {
        assert(row[0].0 != k);
        assert forall|j: int| 0 <= j < row.len() - 1 implies #[trigger] row.drop_first()[j].0 != k by {
            assert(row.drop_first()[j] == row[j + 1]);
        }
        lemma_lookup_none(row.drop_first(), k);
    }
}

proof fn lemma_lookup_same(r1: RowModel, r2: RowModel, k: Seq<char>)
    requires
        r1.len() == r2.len(),
        forall|j: int| 0 <= j < r1.len() ==> #[trigger] r1[j].0 == r2[j].0,
        forall|j: int| 0 <= j < r1.len() && r1[j].0 == k ==> #[trigger] r1[j].1 == r2[j].1,
    ensures
        lookup(r1, k) == lookup(r2, k),
    decreases r1.len(),
{
    if r1.len() > 0 {
        assert(r1[0].0 == r2[0].0);
        assert forall|j: int| 0 <= j < r1.len() - 1 implies #[trigger] r1.drop_first()[j].0
            == r2.drop_first()[j].0 by {
            assert(r1.drop_first()[j] == r1[j + 1]);
            assert(r2.drop_first()[j] == r2[j + 1]);
        }
        assert forall|j: int| 0 <= j < r1.len() - 1 && r1.drop_first()[j].0 == k implies #[trigger] r1.drop_first()[j].1
            == r2.drop_first()[j].1 by {
            assert(r1.drop_first()[j] == r1[j + 1]);
            assert(r2.drop_first()[j] == r2[j + 1]);
        }
        lemma_lookup_same(r1.drop_first(), r2.drop_first(), k);
    }
}

proof fn lemma_lookup_push(row: RowModel, e: (Seq<char>, Seq<char>), k: Seq<char>)
    requires
        e.0 != k,
    ensures
        lookup(row.push(e), k) == lookup(row, k),
    decreases row.len(),
{
    if row.len() == 0 {
        assert(row.push(e).drop_first() =~= row);
    } else {
        assert(row.push(e).drop_first() =~= row.drop_first().push(e));
        lemma_lookup_push(row.drop_first(), e, k);
    }
}

/// Setting an attribute of a row and then reading it gives the value set;
/// reading any other attribute gives what it gave before.
pub proof fn lemma_lookup_insert_entry(row: RowModel, k: Seq<char>, v: Seq<char>, other: Seq<char>)
    ensures
        lookup(insert_entry(row, k, v), k) == Some(v),
        other != k ==> lookup(insert_entry(row, k, v), other) == lookup(row, other),
{
    lemma_key_index_some(row, k);
    let r2 = insert_entry(row, k, v);
    match key_index(row, k) {
        Some(i) => {
            assert forall|j: int| 0 <= j < i implies #[trigger] r2[j].0 != k by {
                assert(r2[j] == row[j]);
            }
            lemma_lookup_first(r2, k, i);
            if other != k {
                assert forall|j: int| 0 <= j < row.len() implies #[trigger] row[j].0 == r2[j].0 by {
                    if j != i {
                        assert(r2[j] == row[j]);
                    }
                }
                assert forall|j: int| 0 <= j < row.len() && row[j].0 == other implies #[trigger] row[j].1
                    == r2[j].1 by {
                    assert(j != i);
                    assert(r2[j] == row[j]);
                }
                lemma_lookup_same(row, r2, other);
            }
        },
        None => {
            assert forall|j: int| 0 <= j < row.len() implies #[trigger] r2[j].0 != k by {
                assert(r2[j] == row[j]);
            }
            lemma_lookup_first(r2, k, row.len() as int);
            if other != k {
                lemma_lookup_push(row, (k, v), other);
            }
        },
    }
}

fn set_entry(row: &mut Vec<(String, String)>, key: &String, value: &String)
    ensures
        final(row).deep_view() == insert_entry(old(row).deep_view(), key@, value@),
{
    let ghost rv = row.deep_view();
    let mut i: usize = 0;
    let mut found = false;
    while i < row.len()
        invariant_except_break
            rv == row.deep_view(),
            i <= row.len(),
            key_index(rv.take(i as int), key@) is None,
            !found,
        ensures
            rv == row.deep_view(),
            i <= row.len(),
            found ==> i < row.len() && key_index(rv, key@) == Some(i as int),
            !found ==> key_index(rv.take(i as int), key@) is None && i == row.len(),
        decreases row.len() - i,
    {
        assert(rv.take(i + 1).drop_last() =~= rv.take(i as int));
        assert(rv[i as int] == (row[i as int].0@, row[i as int].1@));
        if row[i].0 == *key {
            assert(key_index(rv.take(i + 1), key@) == Some(i as int));
            proof {
                lemma_key_index_prefix(rv, key@, i + 1, rv.len() as int);
            }
            assert(rv.take(rv.len() as int) =~= rv);
            found = true;
            break;
        }
        i = i + 1;
    }
    assert(rv.take(row.len() as int) =~= rv);
    if found {
        row.set(i, (key.clone(), value.clone()));
        assert(row.deep_view() =~= rv.update(i as int, (key@, value@)));
    } else {
        row.push((key.clone(), value.clone()));
        assert(row.deep_view() =~= rv.push((key@, value@)));
    }
}

/// The row of a record: each header set to its field, in header order, a
/// later header of the same name overwriting an earlier one; the object
/// column (if any) left out. `n` is the number of headers taken.
pub open spec fn record_row(headers: Seq<Seq<char>>, fields: Seq<Seq<char>>, skip: Option<int>, n: nat) -> RowModel
    decreases n,
{
    if n == 0 {
        Seq::empty()
    } else {
        let r = record_row(headers, fields, skip, (n - 1) as nat);
        if skip == Some((n - 1) as int) {
            r
        } else {
            insert_entry(r, headers[n - 1], fields[n - 1])
        }
    }
}

/// The name of the object of data row `r` (from zero): its field in the
/// object column, or `obj` and its number from one.
pub open spec fn object_name(fields: Seq<Seq<char>>, object_index: Option<int>, r: nat) -> Seq<char> {
    match object_index {
        Some(i) => fields[i],
        None => "obj"@ + decimal(r + 1),
    }
}

/// The message for data row `r` (from zero) with `n` fields where there are
/// `h` headers.
pub open spec fn field_count_message(r: nat, n: nat, h: nat) -> Seq<char> {
    "Row "@ + decimal(r + 2) + " has "@ + decimal(n) + " field(s), expected "@ + decimal(h)
        + ". The parser expects a simple CSV file without quoted commas."@
}

/// The objects and rows of the data lines, or the message of the first line
/// whose number of fields differs from the number of headers.
pub open spec fn parse_rows(
    data_lines: Seq<Seq<char>>,
    headers: Seq<Seq<char>>,
    object_index: Option<int>,
) -> Result<(Seq<Seq<char>>, Seq<RowModel>), Seq<char>>
    decreases data_lines.len(),
{
    if data_lines.len() == 0 {
        Ok((Seq::empty(), Seq::empty()))
    } else {
        match parse_rows(data_lines.drop_last(), headers, object_index) {
            Err(e) => Err(e),
            Ok(parsed) => {
                let r = (data_lines.len() - 1) as nat;
                let fields = record_fields(data_lines.last());
                if fields.len() != headers.len() {
                    Err(field_count_message(r, fields.len(), headers.len()))
                } else {
                    Ok(
                        (
                            parsed.0.push(object_name(fields, object_index, r)),
                            parsed.1.push(record_row(headers, fields, object_index, headers.len())),
                        ),
                    )
                }
            },
        }
    }
}

/// The message when the file has fewer than two nonblank lines.
pub open spec fn too_short_message() -> Seq<char> {
    "Input file must contain a header row and at least one data row."@
}

/// The dataset of the nonblank lines `ls` with the given headers, class
/// attribute and object column.
pub open spec fn dataset_of_lines(
    ls: Seq<Seq<char>>,
    headers: Seq<Seq<char>>,
    object_index: Option<int>,
    class_attribute: Seq<char>,
) -> Result<DatasetModel, Seq<char>> {
    match parse_rows(ls.skip(1), headers, object_index) {
        Err(e) => Err(e),
        Ok(parsed) => Ok(
            DatasetModel {
                objects: parsed.0,
                attributes: match object_index {
                    Some(i) => headers.remove(i),
                    None => headers,
                },
                class_attribute: class_attribute,
                data: parsed.1,
            },
        ),
    }
}

/// The view of an optional string.
pub open spec fn opt_view(o: Option<&str>) -> Option<Seq<char>> {
    match o {
        Some(s) => Some(s@),
        None => None,
    }
}

/// The dataset that a CSV text describes, or the message of what is wrong
/// with it: blank lines are skipped; the first line names the columns; the
/// class column must be one of them; the object column, if given, must be one
/// of them and not the class column, and names the objects (otherwise they are
/// `obj1`, `obj2`, ...); each data line must have one field per column.
pub open spec fn csv_dataset(
    raw: Seq<char>,
    class_attribute: Seq<char>,
    object_column: Option<Seq<char>>,
) -> Result<DatasetModel, Seq<char>> {
    let ls = nonblank(text_lines(raw));
    if ls.len() < 2 {
        Err(too_short_message())
    } else {
        let headers = record_fields(ls[0]);
        if headers.len() == 0 {
            Err("Header row is empty."@)
        } else {
            match first_index(headers, class_attribute) {
                None => Err(
                    "Class attribute '"@ + class_attribute + "' is not present in the header."@,
                ),
                Some(ci) => match object_column {
                    Some(col) => match first_index(headers, col) {
                        None => Err("Object column '"@ + col + "' is not present in the header."@),
                        Some(oi) => if oi == ci {
                            Err("The object column cannot be the same as the class column."@)
                        } else {
                            dataset_of_lines(ls, headers, Some(oi), class_attribute)
                        },
                    },
                    None => dataset_of_lines(ls, headers, None, class_attribute),
                },
            }
        }
    }
}

fn record_row_exec(headers: &Vec<String>, fields: &Vec<String>, skip: Option<usize>) -> (r: Vec<(String, String)>)
    requires
        headers.len() == fields.len(),
    ensures
        r.deep_view() == record_row(
            headers.deep_view(),
            fields.deep_view(),
            match skip {
                Some(i) => Some(i as int),
                None => None,
            },
            headers.len() as nat,
        ),
{
    let ghost sk = match skip {
        Some(i) => Some(i as int),
        None => None,
    };
    let mut row: Vec<(String, String)> = Vec::new();
    let mut k: usize = 0;
    while k < headers.len()
        invariant
            headers.len() == fields.len(),
            k <= headers.len(),
            sk == match skip {
                Some(i) => Some(i as int),
                None => None::<int>,
            },
            row.deep_view() == record_row(headers.deep_view(), fields.deep_view(), sk, k as nat),
        decreases headers.len() - k,
    {
        let is_skipped = match skip {
            Some(i) => i == k,
            None => false,
        };
        if !is_skipped {
            set_entry(&mut row, &headers[k], &fields[k]);
        }
        k = k + 1;
    }
    row
}

fn field_count_error(r: usize, n: usize, h: usize) -> (m: String)
    ensures
        m@ == field_count_message(r as nat, n as nat, h as nat),
{
    let mut m = String::from_str("Row ");
    let a = decimal_string(r as u128 + 2);
    m.append(a.as_str());
    m.append(" has ");
    let b = decimal_string(n as u128);
    m.append(b.as_str());
    m.append(" field(s), expected ");
    let c = decimal_string(h as u128);
    m.append(c.as_str());
    m.append(". The parser expects a simple CSV file without quoted commas.");
    m
}

/// Parses the data lines (all lines after the header).
fn parse_data_lines(
    ls: &Vec<String>,
    headers: &Vec<String>,
    object_index: Option<usize>,
) -> (r: Result<(Vec<String>, Vec<Vec<(String, String)>>), String>)
    requires
        ls.len() >= 1,
        object_index matches Some(i) ==> i < headers.len(),
    ensures
        match r {
            Ok(parsed) => parse_rows(
                ls.deep_view().skip(1),
                headers.deep_view(),
                match object_index {
                    Some(i) => Some(i as int),
                    None => None,
                },
            ) == Ok::<(Seq<Seq<char>>, Seq<RowModel>), Seq<char>>(
                (parsed.0.deep_view(), parsed.1.deep_view()),
            ),
            Err(e) => parse_rows(
                ls.deep_view().skip(1),
                headers.deep_view(),
                match object_index {
                    Some(i) => Some(i as int),
                    None => None,
                },
            ) == Err::<(Seq<Seq<char>>, Seq<RowModel>), Seq<char>>(e@),
        },
{
    let ghost oi = match object_index {
        Some(i) => Some(i as int),
        None => None,
    };
    let ghost data = ls.deep_view().skip(1);
    let mut objects: Vec<String> = Vec::new();
    let mut rows: Vec<Vec<(String, String)>> = Vec::new();
    let mut i: usize = 1;
    assert(data.take(0) =~= Seq::<Seq<char>>::empty());
    assert(objects.deep_view() =~= Seq::<Seq<char>>::empty());
    assert(rows.deep_view() =~= Seq::<RowModel>::empty());
    while i < ls.len()
        invariant
            1 <= i <= ls.len(),
            data == ls.deep_view().skip(1),
            oi == match object_index {
                Some(j) => Some(j as int),
                None => None::<int>,
            },
            object_index matches Some(j) ==> j < headers.len(),
            parse_rows(data.take(i - 1), headers.deep_view(), oi) == Ok::<
                (Seq<Seq<char>>, Seq<RowModel>),
                Seq<char>,
            >((objects.deep_view(), rows.deep_view())),
        decreases ls.len() - i,
    {
        let ghost prefix = data.take(i - 1);
        let ghost next = data.take(i as int);
        assert(next.drop_last() =~= prefix);
        assert(next.last() == ls.deep_view()[i as int]);
        let fields = parse_record(ls[i].as_str());
        if fields.len() != headers.len() {
            let m = field_count_error(i - 1, fields.len(), headers.len());
            proof {
                lemma_parse_rows_err_prefix(data, headers.deep_view(), oi, i as int, data.len() as int);
            }
            assert(data.take(data.len() as int) =~= data);
            return Err(m);
        }
        let name = match object_index {
            Some(j) => fields[j].clone(),
            None => {
                let mut n = String::from_str("obj");
                let d = decimal_string(i as u128);
                n.append(d.as_str());
                n
            },
        };
        assert(name@ == object_name(fields.deep_view(), oi, (i - 1) as nat));
        let row = record_row_exec(headers, &fields, object_index);
        let ghost ob = objects.deep_view();
        let ghost rb = rows.deep_view();
        objects.push(name);
        rows.push(row);
        assert(objects.deep_view() =~= ob.push(object_name(fields.deep_view(), oi, (i - 1) as nat)));
        assert(rows.deep_view() =~= rb.push(
            record_row(headers.deep_view(), fields.deep_view(), oi, headers.len() as nat),
        ));
        i = i + 1;
    }
    assert(data.take(ls.len() - 1) =~= data);
    Ok((objects, rows))
}

proof fn lemma_parse_rows_err_prefix(
    s: Seq<Seq<char>>,
    headers: Seq<Seq<char>>,
    oi: Option<int>,
    n: int,
    m: int,
)
    requires
        0 <= n <= m <= s.len(),
        parse_rows(s.take(n), headers, oi) is Err,
    ensures
        parse_rows(s.take(m), headers, oi) == parse_rows(s.take(n), headers, oi),
    decreases m - n,
{
    if m > n {
        lemma_parse_rows_err_prefix(s, headers, oi, n, m - 1);
        assert(s.take(m).drop_last() =~= s.take(m - 1));
    }
}

/// Reads a dataset from the text of a simple CSV file (no quoted commas),
/// with `class_attribute` as the class column and `object_column`, if given,
/// as the column that names the objects.
pub fn parse_csv_dataset(raw: &str, class_attribute: &str, object_column: Option<&str>) -> (r: Result<
    NominalDataset,
    String,
>)
    ensures
        match r {
            Ok(d) => csv_dataset(raw@, class_attribute@, opt_view(object_column)) == Ok::<
                DatasetModel,
                Seq<char>,
            >(d@),
            Err(e) => csv_dataset(raw@, class_attribute@, opt_view(object_column)) == Err::<
                DatasetModel,
                Seq<char>,
            >(e@),
        },
{
    let ls = nonblank_lines(raw);
    if ls.len() < 2 {
        return Err(
            String::from_str("Input file must contain a header row and at least one data row."),
        );
    }
    let headers = parse_record(ls[0].as_str());
    if headers.len() == 0 {
        return Err(String::from_str("Header row is empty."));
    }
    let class_index = match find_index(&headers, class_attribute) {
        Some(i) => i,
        None => {
            let mut m = String::from_str("Class attribute '");
            m.append(class_attribute);
            m.append("' is not present in the header.");
            return Err(m);
        },
    };
    let object_index = match object_column {
        Some(column_name) => {
            match find_index(&headers, column_name) {
                Some(i) => {
                    if i == class_index {
                        return Err(
                            String::from_str(
                                "The object column cannot be the same as the class column.",
                            ),
                        );
                    }
                    Some(i)
                },
                None => {
                    let mut m = String::from_str("Object column '");
                    m.append(column_name);
                    m.append("' is not present in the header.");
                    return Err(m);
                },
            }
        },
        None => None,
    };
    let (objects, data) = parse_data_lines(&ls, &headers, object_index)?;
    let mut attributes: Vec<String> = Vec::new();
    let mut k: usize = 0;
    let ghost hv = headers.deep_view();
    while k < headers.len()
        invariant
            hv == headers.deep_view(),
            k <= headers.len(),
            object_index matches Some(j) ==> j < headers.len(),
            attributes.deep_view() =~= match object_index {
                Some(j) => if j < k {
                    hv.take(k as int).remove(j as int)
                } else {
                    hv.take(k as int)
                },
                None => hv.take(k as int),
            },
        decreases headers.len() - k,
    {
        let skip = match object_index {
            Some(j) => j == k,
            None => false,
        };
        let ghost before = attributes.deep_view();
        if !skip {
            attributes.push(headers[k].clone());
            assert(attributes.deep_view() =~= before.push(hv[k as int]));
        }
        k = k + 1;
    }
    assert(hv.take(headers.len() as int) =~= hv);
    Ok(NominalDataset::new(objects, attributes, String::from_str(class_attribute), data))
}

proof fn lemma_first_index_found(s: Seq<Seq<char>>, x: Seq<char>)
    ensures
        first_index(s, x) matches Some(i) ==> 0 <= i < s.len() && s[i] == x,
    decreases s.len(),
{
    if s.len() > 0 {
        lemma_first_index_found(s.drop_last(), x);
    }
}

proof fn lemma_insert_entry_distinct(row: RowModel, k: Seq<char>, v: Seq<char>)
    requires
        distinct_keys(row),
    ensures
        distinct_keys(insert_entry(row, k, v)),
{
    lemma_key_index_some(row, k);
    let r2 = insert_entry(row, k, v);
    match key_index(row, k) {
        Some(i) => {
            assert forall|a: int, b: int| 0 <= a < b < r2.len() implies #[trigger] r2[a].0
                != #[trigger] r2[b].0 by {
                assert(r2[a].0 == row[a].0);
                assert(r2[b].0 == row[b].0);
                assert(row[a].0 != row[b].0);
            }
        },
        None => {
            assert forall|a: int, b: int| 0 <= a < b < r2.len() implies #[trigger] r2[a].0
                != #[trigger] r2[b].0 by {
                assert(r2[a] == row[a]);
                if b < row.len() {
                    assert(r2[b] == row[b]);
                    assert(row[a].0 != row[b].0);
                } else {
                    assert(r2[b].0 == k);
                }
            }
        },
    }
}

proof fn lemma_record_row_distinct(headers: Seq<Seq<char>>, fields: Seq<Seq<char>>, skip: Option<int>, n: nat)
    ensures
        distinct_keys(record_row(headers, fields, skip, n)),
    decreases n,
{
    if n > 0 {
        let m = (n - 1) as nat;
        lemma_record_row_distinct(headers, fields, skip, m);
        if skip != Some(m as int) {
            lemma_insert_entry_distinct(record_row(headers, fields, skip, m), headers[m as int], fields[m as int]);
        }
    }
}

proof fn lemma_parse_rows_distinct(
    data_lines: Seq<Seq<char>>,
    headers: Seq<Seq<char>>,
    object_index: Option<int>,
)
    ensures
        parse_rows(data_lines, headers, object_index) matches Ok(parsed) ==> forall|i: int|
            0 <= i < parsed.1.len() ==> distinct_keys(#[trigger] parsed.1[i]),
    decreases data_lines.len(),
{
    if data_lines.len() > 0 {
        lemma_parse_rows_distinct(data_lines.drop_last(), headers, object_index);
        lemma_record_row_distinct(headers, record_fields(data_lines.last()), object_index, headers.len());
        if let Ok(parsed) = parse_rows(data_lines, headers, object_index) {
            if let Ok(p) = parse_rows(data_lines.drop_last(), headers, object_index) {
                assert forall|i: int| 0 <= i < parsed.1.len() implies distinct_keys(#[trigger] parsed.1[i]) by {
                    if i < p.1.len() {
                        assert(parsed.1[i] == p.1[i]);
                    }
                }
            }
        }
    }
}

proof fn lemma_parse_rows_lengths(
    data_lines: Seq<Seq<char>>,
    headers: Seq<Seq<char>>,
    object_index: Option<int>,
)
    ensures
        parse_rows(data_lines, headers, object_index) matches Ok(parsed) ==> parsed.0.len()
            == data_lines.len() && parsed.1.len() == data_lines.len(),
    decreases data_lines.len(),
{
    if data_lines.len() > 0 {
        lemma_parse_rows_lengths(data_lines.drop_last(), headers, object_index);
    }
}

proof fn lemma_first_index_first(s: Seq<Seq<char>>, x: Seq<char>)
    ensures
        first_index(s, x) matches Some(i) ==> 0 <= i < s.len() && s[i] == x && forall|j: int|
            0 <= j < i ==> #[trigger] s[j] != x,
        first_index(s, x) is None ==> forall|j: int| 0 <= j < s.len() ==> #[trigger] s[j] != x,
    decreases s.len(),
{
    if s.len() > 0 {
        let p = s.drop_last();
        lemma_first_index_first(p, x);
        match first_index(p, x) {
            Some(i) => {
                assert(first_index(s, x) == Some(i));
                assert(s[i] == p[i]);
                assert forall|j: int| 0 <= j < i implies #[trigger] s[j] != x by {
                    assert(s[j] == p[j]);
                }
            },
            None => {
                assert forall|j: int| 0 <= j < s.len() - 1 implies #[trigger] s[j] != x by {
                    assert(s[j] == p[j]);
                }
            },
        }
    }
}

/// The object name of data row `r` (from zero) with fields `fields`.
spec fn expected_name(fields: Seq<Seq<char>>, object_index: Option<int>, r: int) -> Seq<char> {
    match object_index {
        Some(i) => fields[i],
        None => "obj"@ + decimal((r + 1) as nat),
    }
}

proof fn lemma_parse_rows_objects(
    data_lines: Seq<Seq<char>>,
    headers: Seq<Seq<char>>,
    object_index: Option<int>,
    parsed: (Seq<Seq<char>>, Seq<RowModel>),
)
    requires
        parse_rows(data_lines, headers, object_index) == Ok::<(Seq<Seq<char>>, Seq<RowModel>), Seq<char>>(parsed),
    ensures
        parsed.0.len() == data_lines.len(),
        forall|r: int|
            0 <= r < data_lines.len() ==> record_fields(#[trigger] data_lines[r]).len() == headers.len(),
        forall|r: int|
            0 <= r < data_lines.len() ==> #[trigger] parsed.0[r] == expected_name(
                record_fields(data_lines[r]),
                object_index,
                r,
            ),
    decreases data_lines.len(),
{
    lemma_parse_rows_lengths(data_lines, headers, object_index);
    if data_lines.len() > 0 {
        let init = data_lines.drop_last();
        let p = parse_rows(init, headers, object_index)->Ok_0;
        lemma_parse_rows_objects(init, headers, object_index, p);
        let last = data_lines.len() - 1;
        let fields = record_fields(data_lines.last());
        assert(fields.len() == headers.len());
        assert(parsed.0 == p.0.push(object_name(fields, object_index, last as nat)));
        assert forall|r: int| 0 <= r < data_lines.len() implies record_fields(
            #[trigger] data_lines[r],
        ).len() == headers.len() by {
            if r < last {
                assert(data_lines[r] == init[r]);
            }
        }
        assert forall|r: int| 0 <= r < data_lines.len() implies #[trigger] parsed.0[r] == expected_name(
            record_fields(data_lines[r]),
            object_index,
            r,
        ) by {
            if r < last {
                assert(parsed.0[r] == p.0[r]);
                assert(data_lines[r] == init[r]);
            }
        }
    }
}

/// The objects of a dataset read from CSV are the data lines in order, and
/// each is named by the object column: the object of data line `r` (the
/// `r`-th nonblank line after the header) is named by that line's trimmed
/// field under the first header equal to the object column, wherever that
/// column stands; without an object column the names are `obj1`, `obj2`,
/// ... in line order.
pub proof fn lemma_csv_object_names(
    raw: Seq<char>,
    class_attribute: Seq<char>,
    object_column: Option<Seq<char>>,
)
    ensures
        csv_dataset(raw, class_attribute, object_column) matches Ok(m) ==> {
            let ls = nonblank(text_lines(raw));
            let headers = record_fields(ls[0]);
            &&& m.objects.len() + 1 == ls.len()
            &&& forall|r: int|
                1 <= r < ls.len() ==> record_fields(#[trigger] ls[r]).len() == headers.len()
            &&& match object_column {
                Some(col) => forall|i: int, r: int|
                    #![trigger headers[i], ls[r]]
                    0 <= i < headers.len() && headers[i] == col && (forall|j: int|
                        0 <= j < i ==> headers[j] != col) && 1 <= r < ls.len() ==> m.objects[r - 1]
                        == record_fields(ls[r])[i],
                None => forall|r: int|
                    0 <= r < m.objects.len() ==> #[trigger] m.objects[r] == "obj"@ + decimal(
                        (r + 1) as nat,
                    ),
            }
        },
{
    lemma_csv_dataset_well_formed(raw, class_attribute, object_column);
    let ls = nonblank(text_lines(raw));
    if ls.len() >= 2 {
        let headers = record_fields(ls[0]);
        let data = ls.skip(1);
        let oi: Option<int> = match object_column {
            Some(col) => first_index(headers, col),
            None => None,
        };
        if let Ok(m) = csv_dataset(raw, class_attribute, object_column) {
            let parsed = parse_rows(data, headers, oi)->Ok_0;
            lemma_parse_rows_objects(data, headers, oi, parsed);
            assert(m.objects == parsed.0);
            assert forall|r: int| 1 <= r < ls.len() implies record_fields(#[trigger] ls[r]).len()
                == headers.len() by {
                assert(data[r - 1] == ls[r]);
            }
            match object_column {
                Some(col) => {
                    lemma_first_index_first(headers, col);
                    let o = oi->Some_0;
                    assert forall|i: int, r: int|
                        #![trigger headers[i], ls[r]]
                        0 <= i < headers.len() && headers[i] == col && (forall|j: int|
                            0 <= j < i ==> headers[j] != col) && 1 <= r < ls.len() implies m.objects[r
                            - 1] == record_fields(ls[r])[i] by {
                        assert(data[r - 1] == ls[r]);
                        assert(parsed.0[r - 1] == expected_name(record_fields(data[r - 1]), oi, r - 1));
                        if i < o {
                            assert(headers[i] != col);
                        } else if i > o {
                            assert(headers[o] == col);
                        }
                    }
                },
                None => {
                    assert forall|r: int| 0 <= r < m.objects.len() implies #[trigger] m.objects[r]
                        == "obj"@ + decimal((r + 1) as nat) by {
                        assert(parsed.0[r] == expected_name(record_fields(data[r]), oi, r));
                    }
                },
            }
        }
    }
}

/// A dataset read from CSV is well formed: one row per data line and per
/// object, each naming each attribute at most once, and the class attribute
/// is one of its attributes.
pub proof fn lemma_csv_dataset_well_formed(
    raw: Seq<char>,
    class_attribute: Seq<char>,
    object_column: Option<Seq<char>>,
)
    ensures
        csv_dataset(raw, class_attribute, object_column) matches Ok(m) ==> {
            &&& m.well_formed()
            &&& m.objects.len() + 1 == nonblank(text_lines(raw)).len()
            &&& m.class_attribute == class_attribute
            &&& m.attributes.contains(class_attribute)
        },
{
    let ls = nonblank(text_lines(raw));
    if ls.len() >= 2 {
        let headers = record_fields(ls[0]);
        lemma_first_index_found(headers, class_attribute);
        lemma_parse_rows_lengths(ls.skip(1), headers, None);
        lemma_parse_rows_distinct(ls.skip(1), headers, None);
        match object_column {
            Some(col) => {
                lemma_first_index_found(headers, col);
                match (first_index(headers, class_attribute), first_index(headers, col)) {
                    (Some(ci), Some(oi)) => {
                        lemma_parse_rows_lengths(ls.skip(1), headers, Some(oi));
                        lemma_parse_rows_distinct(ls.skip(1), headers, Some(oi));
                        if oi != ci {
                            let attrs = headers.remove(oi);
                            if ci < oi {
                                assert(attrs[ci] == class_attribute);
                            } else {
                                assert(attrs[ci - 1] == class_attribute);
                            }
                        }
                    },
                    _ => {},
                }
            },
            None => {
                if let Some(ci) = first_index(headers, class_attribute) {
                    assert(headers[ci] == class_attribute);
                }
            },
        }
    }
}

} // verus!
