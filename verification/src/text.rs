//! Text helpers: splitting at a separator, joining, and reading lines.
use vstd::prelude::*;
use vstd::string::StringExecFns;

verus! {

/// The character sequences held by a sequence of strings.
pub open spec fn views(v: Seq<String>) -> Seq<Seq<char>> {
    v.map_values(|x: String| x@)
}

/// The fields of `s` between occurrences of `sep`, as `str::split` yields them:
/// there is always one field more than there are separators.
pub open spec fn split<A>(s: Seq<A>, sep: A) -> Seq<Seq<A>>
    decreases s.len(),
{
    if s.len() == 0 {
        seq![Seq::<A>::empty()]
    } else {
        let prev = split(s.drop_last(), sep);
        if s.last() == sep {
            prev.push(Seq::<A>::empty())
        } else {
            prev.update(prev.len() - 1, prev.last().push(s.last()))
        }
    }
}

/// The fields concatenated, with `sep` between each two of them.
pub open spec fn join<A>(fields: Seq<Seq<A>>, sep: Seq<A>) -> Seq<A>
    decreases fields.len(),
{
    if fields.len() == 0 {
        Seq::<A>::empty()
    } else if fields.len() == 1 {
        fields[0]
    } else {
        join(fields.drop_last(), sep) + sep + fields.last()
    }
}

/// `s` with one trailing `cr` removed, if it ends with one.
pub open spec fn strip_last<A>(s: Seq<A>, cr: A) -> Seq<A> {
    if s.len() > 0 && s.last() == cr {
        s.drop_last()
    } else {
        s
    }
}

/// The lines of `s` as `BufRead::lines` yields them: the text between line feeds `lf`,
/// a line terminated by `cr` `lf` losing its `cr`, and no line after a final line feed.
pub open spec fn lines_of<A>(s: Seq<A>, lf: A, cr: A) -> Seq<Seq<A>> {
    let f = split(s, lf);
    let n = if f.last().len() == 0 {
        f.len() - 1
    } else {
        f.len() as int
    };
    Seq::new(
        n as nat,
        |i: int|
            if i < f.len() - 1 {
                strip_last(f[i], cr)
            } else {
                f[i]
            },
    )
}

/// `s` with one trailing carriage return removed, if it has one.
pub open spec fn strip_cr(s: Seq<char>) -> Seq<char> {
    strip_last(s, '\r')
}

/// The lines of a text, as `BufRead::lines` reads them.
pub open spec fn lines(s: Seq<char>) -> Seq<Seq<char>> {
    lines_of(s, '\n', '\r')
}

/// The lines of a byte string, as `BufRead::lines` splits them before decoding each.
pub open spec fn byte_lines(s: Seq<u8>) -> Seq<Seq<u8>> {
    lines_of(s, 10u8, 13u8)
}

/// Appends `c` to `s` (`String::push`).
/// Claims that the string afterwards holds its old characters followed by `c`.
#[verifier::external_body]
pub(crate) fn push_char(s: &mut String, c: char)
    ensures
        final(s)@ == old(s)@.push(c),
{
    s.push(c);
}

/// The characters of `s`, in order.
pub fn chars_of(s: &str) -> (v: Vec<char>)
    ensures
        v@ == s@,
{
    let mut v: Vec<char> = Vec::new();
    for c in it: s.chars()
        invariant
            it.seq() == s@,
            v@ == s@.take(it.index() as int),
    {
        v.push(c);
        assert(v@ =~= s@.take(it.index() + 1));
    }
    assert(s@.take(s@.len() as int) =~= s@);
    v
}

/// A split always has at least one field.
pub proof fn lemma_split_nonempty<A>(s: Seq<A>, sep: A)
    ensures
        split(s, sep).len() >= 1,
    decreases s.len(),
{
    if s.len() > 0 {
        lemma_split_nonempty(s.drop_last(), sep);
    }
}

/// Extending a text by a character that is not the separator extends its last field.
proof fn lemma_split_push<A>(s: Seq<A>, c: A, sep: A)
    ensures
        split(s.push(c), sep) == (if c == sep {
            split(s, sep).push(Seq::<A>::empty())
        } else {
            split(s, sep).update(split(s, sep).len() - 1, split(s, sep).last().push(c))
        }),
{
    assert(s.push(c).drop_last() =~= s);
}

/// Splitting `s` at `sep` and joining the fields with `sep` gives `s` back, and no
/// field holds the separator.
pub proof fn law_join_split<A>(s: Seq<A>, sep: A)
    ensures
        join(split(s, sep), seq![sep]) == s,
        forall|i: int| 0 <= i < split(s, sep).len() ==> !(#[trigger] split(s, sep)[i]).contains(sep),
    decreases s.len(),
{
    if s.len() > 0 {
        let p = s.drop_last();
        let c = s.last();
        law_join_split(p, sep);
        lemma_split_nonempty(p, sep);
        let f = split(p, sep);
        if c == sep {
            assert(split(s, sep).drop_last() =~= f);
            assert(join(split(s, sep), seq![sep]) =~= s);
            assert forall|i: int| 0 <= i < split(s, sep).len() implies !(#[trigger] split(
                s,
                sep,
            )[i]).contains(sep) by {
                if i < f.len() {
                    assert(split(s, sep)[i] == f[i]);
                } else {
                    assert(split(s, sep)[i] =~= Seq::<A>::empty());
                }
            }
        } else {
            let g = split(s, sep);
            if f.len() == 1 {
                assert(g[0] == f[0].push(c));
                assert(join(g, seq![sep]) =~= s);
            } else {
                assert(g.last() == f.last().push(c));
                assert(p.push(c) =~= s);
                assert(g.drop_last() =~= f.drop_last());
                assert(join(g, seq![sep]) == join(f.drop_last(), seq![sep]) + seq![sep] + f.last().push(c));
                assert(join(f, seq![sep]) == join(f.drop_last(), seq![sep]) + seq![sep] + f.last());
                assert(join(g, seq![sep]) =~= s);
            }
            assert forall|i: int| 0 <= i < g.len() implies !(#[trigger] g[i]).contains(sep) by {
                if i < f.len() - 1 {
                    assert(g[i] == f[i]);
                } else {
                    assert(g[i] == f.last().push(c));
                    assert(!f[f.len() - 1].contains(sep));
                    if g[i].contains(sep) {
                        let k = choose|k: int| 0 <= k < g[i].len() && g[i][k] == sep;
                        assert(f.last()[k] == sep);
                    }
                }
            }
        }
    }
}

/// Appending a text free of the separator extends the last field by that text.
proof fn lemma_split_append<A>(p: Seq<A>, t: Seq<A>, sep: A)
    requires
        !t.contains(sep),
    ensures
        split(p + t, sep) == split(p, sep).update(
            split(p, sep).len() - 1,
            split(p, sep).last() + t,
        ),
    decreases t.len(),
{
    lemma_split_nonempty(p, sep);
    if t.len() == 0 {
        assert(p + t =~= p);
        assert(split(p, sep).last() + t =~= split(p, sep).last());
        assert(split(p, sep).update(split(p, sep).len() - 1, split(p, sep).last()) =~= split(
            p,
            sep,
        ));
    } else {
        let t0 = t.drop_last();
        assert(!t0.contains(sep)) by {
            if t0.contains(sep) {
                let k = choose|k: int| 0 <= k < t0.len() && t0[k] == sep;
                assert(t[k] == sep);
            }
        }
        assert(t.last() != sep) by {
            assert(t[t.len() - 1] == t.last());
        }
        lemma_split_append(p, t0, sep);
        assert((p + t).drop_last() =~= p + t0);
        assert((p + t).last() == t.last());
        lemma_split_nonempty(p + t0, sep);
        let f = split(p, sep);
        let h = split(p + t0, sep);
        assert(h.len() == f.len());
        assert(h.last() == f.last() + t0);
        assert(split(p + t, sep) == h.update(h.len() - 1, h.last().push(t.last())));
        let last_new = f.last() + t;
        assert(h.last().push(t.last()) =~= last_new);
        assert(h.update(h.len() - 1, last_new) =~= f.update(f.len() - 1, last_new));
        assert(split(p + t, sep) =~= split(p, sep).update(
            split(p, sep).len() - 1,
            split(p, sep).last() + t,
        ));
    }
}

/// A text without the separator is a single field, and two such texts around one
/// separator are exactly two fields.
pub proof fn lemma_split_two<A>(s: Seq<A>, t: Seq<A>, sep: A)
    requires
        !s.contains(sep),
        !t.contains(sep),
    ensures
        split(s, sep) == seq![s],
        split(s + seq![sep] + t, sep) == seq![s, t],
{
    let e = Seq::<A>::empty();
    lemma_split_append(e, s, sep);
    assert(e + s =~= s);
    assert(split(s, sep) =~= seq![s]);
    let st = s + seq![sep];
    assert(st.drop_last() =~= s);
    assert(split(st, sep) =~= seq![s, e]);
    lemma_split_append(st, t, sep);
    assert(e + t =~= t);
    assert(split(st + t, sep) =~= seq![s, t]);
}

/// Joining fields that do not hold `sep` and splitting the result at `sep` gives the
/// fields back.
pub proof fn law_split_join<A>(fields: Seq<Seq<A>>, sep: A)
    requires
        fields.len() >= 1,
        forall|i: int| 0 <= i < fields.len() ==> !(#[trigger] fields[i]).contains(sep),
    ensures
        split(join(fields, seq![sep]), sep) == fields,
    decreases fields.len(),
{
    let e = Seq::<A>::empty();
    if fields.len() == 1 {
        lemma_split_append(e, fields[0], sep);
        assert(e + fields[0] =~= fields[0]);
        assert(split(e, sep).update(0, e + fields[0]) =~= fields);
    } else {
        let p = fields.drop_last();
        assert forall|i: int| 0 <= i < p.len() implies !(#[trigger] p[i]).contains(sep) by {
            assert(p[i] == fields[i]);
        }
        law_split_join(p, sep);
        let j = join(p, seq![sep]);
        let last = fields.last();
        assert(!last.contains(sep)) by {
            assert(last == fields[fields.len() - 1]);
        }
        lemma_split_push(j, sep, sep);
        assert(j.push(sep) =~= j + seq![sep]);
        lemma_split_append(j + seq![sep], last, sep);
        assert(join(fields, seq![sep]) == j + seq![sep] + last);
        assert(e + last =~= last);
        assert(p.push(e).update(p.len() as int, e + last) =~= fields);
    }
}

/// Joining fields keeps at least the first field's length.
pub proof fn lemma_join_first<A>(fields: Seq<Seq<A>>, sep: Seq<A>)
    requires
        fields.len() >= 1,
    ensures
        join(fields, sep).len() >= fields[0].len(),
    decreases fields.len(),
{
    if fields.len() > 1 {
        lemma_join_first(fields.drop_last(), sep);
        assert(fields.drop_last()[0] == fields[0]);
    }
}

/// The fields of `s` between occurrences of `sep` (`str::split` at a character).
pub fn split_at_char(s: &str, sep: char) -> (fields: Vec<String>)
    ensures
        views(fields@) == split(s@, sep),
{
    let chars = chars_of(s);
    let mut fields: Vec<String> = Vec::new();
    let mut cur = String::new();
    let mut i: usize = 0;
    while i < chars.len()
        invariant
            chars@ == s@,
            i <= chars.len(),
            views(fields@).push(cur@) == split(s@.take(i as int), sep),
        decreases chars.len() - i,
    {
        let c = chars[i];
        proof {
            lemma_split_push(s@.take(i as int), c, sep);
            assert(s@.take(i as int).push(c) =~= s@.take(i + 1));
            lemma_split_nonempty(s@.take(i as int), sep);
        }
        if c == sep {
            let done = cur;
            fields.push(done);
            cur = String::new();
            assert(views(fields@).push(cur@) =~= split(s@.take(i + 1), sep));
        } else {
            push_char(&mut cur, c);
            assert(views(fields@).push(cur@) =~= split(s@.take(i + 1), sep));
        }
        i = i + 1;
    }
    fields.push(cur);
    assert(s@.take(chars.len() as int) =~= s@);
    assert(views(fields@) =~= split(s@, sep));
    fields
}

/// The fields concatenated with `sep` between each two of them.
pub fn join_with(fields: &Vec<String>, sep: &str) -> (out: String)
    ensures
        out@ == join(views(fields@), sep@),
{
    let mut out = String::new();
    let mut i: usize = 0;
    while i < fields.len()
        invariant
            i <= fields.len(),
            out@ == join(views(fields@).take(i as int), sep@),
        decreases fields.len() - i,
    {
        let ghost prev = views(fields@).take(i as int);
        if i > 0 {
            out.append(sep);
        }
        out.append(fields[i].as_str());
        proof {
            let next = views(fields@).take(i + 1);
            assert(next.drop_last() =~= prev);
            if i == 0 {
                assert(out@ =~= next[0]);
            } else {
                assert(out@ =~= join(prev, sep@) + sep@ + next.last());
            }
        }
        i = i + 1;
    }
    assert(views(fields@).take(fields.len() as int) =~= views(fields@));
    out
}

/// The byte strings held by a sequence of byte vectors.
pub open spec fn byte_views(v: Seq<Vec<u8>>) -> Seq<Seq<u8>> {
    v.map_values(|x: Vec<u8>| x@)
}

/// The lines of `content` as `BufRead::lines` splits them, each still undecoded.
pub fn read_byte_lines(content: &[u8]) -> (out: Vec<Vec<u8>>)
    ensures
        byte_views(out@) == byte_lines(content@),
{
    let ghost s = content@;
    let mut fields: Vec<Vec<u8>> = Vec::new();
    let mut cur: Vec<u8> = Vec::new();
    let mut i: usize = 0;
    while i < content.len()
        invariant
            s == content@,
            i <= content.len(),
            byte_views(fields@).push(cur@) == split(s.take(i as int), 10u8),
        decreases content.len() - i,
    {
        let c = content[i];
        proof {
            lemma_split_push(s.take(i as int), c, 10u8);
            assert(s.take(i as int).push(c) =~= s.take(i + 1));
            lemma_split_nonempty(s.take(i as int), 10u8);
        }
        if c == 10u8 {
            let done = cur;
            fields.push(done);
            cur = Vec::new();
            assert(byte_views(fields@).push(cur@) =~= split(s.take(i + 1), 10u8));
        } else {
            cur.push(c);
            assert(byte_views(fields@).push(cur@) =~= split(s.take(i + 1), 10u8));
        }
        i = i + 1;
    }
    fields.push(cur);
    assert(s.take(content.len() as int) =~= s);
    assert(byte_views(fields@) =~= split(s, 10u8));
    let ghost f = split(s, 10u8);
    proof {
        lemma_split_nonempty(s, 10u8);
    }
    let last = fields.len() - 1;
    let n = if fields[last].len() == 0 {
        last
    } else {
        fields.len()
    };
    let mut out: Vec<Vec<u8>> = Vec::new();
    let mut k: usize = 0;
    while k < n
        invariant
            byte_views(fields@) == f,
            f == split(s, 10u8),
            fields.len() >= 1,
            last == fields.len() - 1,
            n == (if f.last().len() == 0 {
                fields.len() - 1
            } else {
                fields.len() as int
            }),
            k <= n,
            byte_views(out@) == byte_lines(s).take(k as int),
        decreases n - k,
    {
        let field = &fields[k];
        assert(field@ == f[k as int]);
        let mut len = field.len();
        if k < last && len > 0 && field[len - 1] == 13u8 {
            len = len - 1;
        }
        let mut line: Vec<u8> = Vec::new();
        let mut j: usize = 0;
        while j < len
            invariant
                len <= field.len(),
                j <= len,
                line@ == field@.take(j as int),
            decreases len - j,
        {
            line.push(field[j]);
            j = j + 1;
            assert(line@ =~= field@.take(j as int));
        }
        assert(line@ =~= byte_lines(s)[k as int]);
        let ghost before = byte_views(out@);
        out.push(line);
        assert(byte_views(out@) == before.push(byte_lines(s)[k as int]));
        k = k + 1;
        assert(byte_views(out@) =~= byte_lines(s).take(k as int));
    }
    assert(byte_lines(s).take(n as int) =~= byte_lines(s));
    out
}

} // verus!
