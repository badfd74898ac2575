use vstd::prelude::*;

verus! {

/// Whether `s` holds the character `c`.
pub open spec fn holds(s: Seq<char>, c: char) -> bool {
    exists|i: int| 0 <= i < s.len() && s[i] == c
}

/// The lines `ps` joined with a newline between each two.
pub open spec fn join_lines(ps: Seq<Seq<char>>) -> Seq<char>
    decreases ps.len(),
{
    if ps.len() == 0 {
        Seq::empty()
    } else if ps.len() == 1 {
        ps[0]
    } else {
        join_lines(ps.drop_last()) + seq!['\n'] + ps.last()
    }
}

/// The text `s` cut at each newline: always at least one line.
pub open spec fn split_lines(s: Seq<char>) -> Seq<Seq<char>>
    decreases s.len(),
{
    if s.len() == 0 {
        seq![Seq::<char>::empty()]
    } else {
        let p = split_lines(s.drop_last());
        if s.last() == '\n' {
            p.push(Seq::empty())
        } else {
            p.update(p.len() - 1, p.last().push(s.last()))
        }
    }
}

/// `s` with each tab replaced by four spaces.
pub open spec fn expand_tabs(s: Seq<char>) -> Seq<char>
    decreases s.len(),
{
    if s.len() == 0 {
        Seq::empty()
    } else {
        expand_tabs(s.drop_last()) + if s.last() == '\t' {
            seq![' ', ' ', ' ', ' ']
        } else {
            seq![s.last()]
        }
    }
}

pub proof fn lemma_split_len(s: Seq<char>)
    ensures
        split_lines(s).len() >= 1,
    decreases s.len(),
{
    if s.len() > 0 {
        lemma_split_len(s.drop_last());
    }
}

/// Appending text without a newline extends the last line.
pub proof fn lemma_split_append(x: Seq<char>, y: Seq<char>)
    requires
        !holds(y, '\n'),
    ensures
        split_lines(x + y) == split_lines(x).update(
            split_lines(x).len() - 1,
            split_lines(x).last() + y,
        ),
    decreases y.len(),
{
    lemma_split_len(x);
    if y.len() == 0 {
        assert(x + y =~= x);
        assert(split_lines(x).last() + y =~= split_lines(x).last());
        assert(split_lines(x).update(split_lines(x).len() - 1, split_lines(x).last()) =~= split_lines(
            x,
        ));
    } else {
        let y0 = y.drop_last();
        assert(!holds(y0, '\n')) by {
            if holds(y0, '\n') {
                let i = choose|i: int| 0 <= i < y0.len() && y0[i] == '\n';
                assert(y[i] == '\n');
            }
        }
        lemma_split_append(x, y0);
        assert((x + y).drop_last() =~= x + y0);
        assert((x + y).last() == y.last());
        assert(y.last() != '\n') by {
            assert(y[y.len() - 1] == y.last());
        }
        lemma_split_len(x + y0);
        let p = split_lines(x + y0);
        let q = split_lines(x);
        assert(split_lines(x + y) == p.update(p.len() - 1, p.last().push(y.last())));
        assert(p.len() == q.len());
        assert(p.last() == q.last() + y0);
        assert(q.last() + y0 + seq![y.last()] =~= q.last() + y);
        assert(p.last().push(y.last()) =~= q.last() + y);
        assert(split_lines(x + y) =~= split_lines(x).update(
            split_lines(x).len() - 1,
            split_lines(x).last() + y,
        ));
    }
}

/// Cutting joined lines gives the lines back, when none holds a newline.
pub proof fn lemma_split_join(ps: Seq<Seq<char>>)
    requires
        ps.len() >= 1,
        forall|i: int| 0 <= i < ps.len() ==> !holds(#[trigger] ps[i], '\n'),
    ensures
        split_lines(join_lines(ps)) == ps,
    decreases ps.len(),
{
    if ps.len() == 1 {
        lemma_split_append(Seq::empty(), ps[0]);
        assert(Seq::<char>::empty() + ps[0] =~= ps[0]);
        assert(split_lines(Seq::<char>::empty()) =~= seq![Seq::<char>::empty()]);
        assert(Seq::<char>::empty() + ps[0] =~= ps[0]);
        assert(split_lines(join_lines(ps)) =~= ps);
    } else {
        let init = ps.drop_last();
        assert forall|i: int| 0 <= i < init.len() implies !holds(#[trigger] init[i], '\n') by {
            assert(init[i] == ps[i]);
        }
        lemma_split_join(init);
        let x = join_lines(init) + seq!['\n'];
        assert(x.drop_last() =~= join_lines(init));
        assert(split_lines(x) == init.push(Seq::empty()));
        assert(!holds(ps.last(), '\n')) by {
            assert(ps[ps.len() - 1] == ps.last());
        }
        lemma_split_append(x, ps.last());
        assert(Seq::<char>::empty() + ps.last() =~= ps.last());
        assert(init.push(Seq::empty()).update(init.len() as int, ps.last()) =~= ps);
    }
}

/// Text without tabs is left as it is by tab expansion.
pub proof fn lemma_expand_no_tabs(s: Seq<char>)
    requires
        !holds(s, '\t'),
    ensures
        expand_tabs(s) == s,
    decreases s.len(),
{
    if s.len() > 0 {
        let s0 = s.drop_last();
        assert(!holds(s0, '\t')) by {
            if holds(s0, '\t') {
                let i = choose|i: int| 0 <= i < s0.len() && s0[i] == '\t';
                assert(s[i] == '\t');
            }
        }
        lemma_expand_no_tabs(s0);
        assert(s[s.len() - 1] != '\t');
        assert(s0 + seq![s.last()] =~= s);
    }
}

/// The characters of the joined lines are those of the lines and newlines.
pub proof fn lemma_join_holds(ps: Seq<Seq<char>>, c: char)
    requires
        c != '\n',
        forall|i: int| 0 <= i < ps.len() ==> !holds(#[trigger] ps[i], c),
    ensures
        !holds(join_lines(ps), c),
    decreases ps.len(),
{
    if ps.len() == 1 {
    } else if ps.len() > 1 {
        let init = ps.drop_last();
        assert forall|i: int| 0 <= i < init.len() implies !holds(#[trigger] init[i], c) by {
            assert(init[i] == ps[i]);
        }
        lemma_join_holds(init, c);
        let j = join_lines(ps);
        let a = join_lines(init);
        assert(!holds(ps.last(), c)) by {
            assert(ps[ps.len() - 1] == ps.last());
        }
        if holds(j, c) {
            let k = choose|k: int| 0 <= k < j.len() && j[k] == c;
            if k < a.len() {
                assert(a[k] == c);
            } else if k == a.len() {
            } else {
                assert(ps.last()[k - a.len() - 1] == c);
            }
        }
    }
}

/// `s` with each tab replaced by four spaces.
pub fn expand_tabs_exec(s: &[char]) -> (r: Vec<char>)
    ensures
        r@ == expand_tabs(s@),
{
    let mut r: Vec<char> = Vec::new();
    let mut i: usize = 0;
    while i < s.len()
        invariant
            i <= s@.len(),
            r@ == expand_tabs(s@.take(i as int)),
        decreases s@.len() - i,
    {
        let c = s[i];
        assert(s@.take(i + 1).drop_last() =~= s@.take(i as int));
        if c == '\t' {
            r.push(' ');
            r.push(' ');
            r.push(' ');
            r.push(' ');
        } else {
            r.push(c);
        }
        assert(r@ =~= expand_tabs(s@.take(i + 1)));
        i = i + 1;
    }
    assert(s@.take(s@.len() as int) =~= s@);
    r
}

/// `s` cut at each newline.
pub fn split_lines_exec(s: &[char]) -> (r: Vec<Vec<char>>)
    ensures
        r@.map_values(|v: Vec<char>| v@) == split_lines(s@),
{
    let mut done: Vec<Vec<char>> = Vec::new();
    let mut cur: Vec<char> = Vec::new();
    let mut i: usize = 0;
    assert(s@.take(0) =~= Seq::<char>::empty());
    assert(done@.map_values(|v: Vec<char>| v@).push(cur@) =~= split_lines(s@.take(0)));
    while i < s.len()
        invariant
            i <= s@.len(),
            done@.map_values(|v: Vec<char>| v@).push(cur@) == split_lines(s@.take(i as int)),
        decreases s@.len() - i,
    {
        let c = s[i];
        let ghost before = done@.map_values(|v: Vec<char>| v@).push(cur@);
        assert(s@.take(i + 1).drop_last() =~= s@.take(i as int));
        assert(s@.take(i + 1).last() == c);
        if c == '\n' {
            done.push(cur);
            cur = Vec::new();
            assert(done@.map_values(|v: Vec<char>| v@).push(cur@) =~= before.push(Seq::empty()));
        } else {
            cur.push(c);
            assert(done@.map_values(|v: Vec<char>| v@).push(cur@) =~= before.update(
                before.len() - 1,
                before.last().push(c),
            ));
        }
        i = i + 1;
    }
    assert(s@.take(s@.len() as int) =~= s@);
    done.push(cur);
    done
}

/// How many times `c` occurs in `s`.
pub open spec fn count_char(s: Seq<char>, c: char) -> nat
    decreases s.len(),
{
    if s.len() == 0 {
        0
    } else {
        count_char(s.drop_last(), c) + if s.last() == c {
            1nat
        } else {
            0nat
        }
    }
}

proof fn lemma_count_add(a: Seq<char>, b: Seq<char>, c: char)
    ensures
        count_char(a + b, c) == count_char(a, c) + count_char(b, c),
    decreases b.len(),
{
    if b.len() == 0 {
        assert(a + b =~= a);
    } else {
        lemma_count_add(a, b.drop_last(), c);
        assert((a + b).drop_last() =~= a + b.drop_last());
        assert((a + b).last() == b.last());
    }
}

/// Text cut at newlines gives one more piece than it has newlines.
pub proof fn lemma_split_count(s: Seq<char>)
    ensures
        split_lines(s).len() == 1 + count_char(s, '\n'),
    decreases s.len(),
{
    if s.len() > 0 {
        lemma_split_count(s.drop_last());
    }
}

/// Tab expansion keeps every newline, and adds none.
pub proof fn lemma_expand_count(s: Seq<char>)
    ensures
        count_char(expand_tabs(s), '\n') == count_char(s, '\n'),
        s.len() > 0 ==> expand_tabs(s).len() > 0,
    decreases s.len(),
{
    if s.len() > 0 {
        lemma_expand_count(s.drop_last());
        let b: Seq<char> = if s.last() == '\t' {
            seq![' ', ' ', ' ', ' ']
        } else {
            seq![s.last()]
        };
        lemma_count_add(expand_tabs(s.drop_last()), b, '\n');
        if s.last() == '\t' {
            assert(count_char(b, '\n') == 0) by {
                reveal_with_fuel(count_char, 5);
            }
        } else {
            assert(count_char(b, '\n') == if s.last() == '\n' {
                1nat
            } else {
                0nat
            }) by {
                reveal_with_fuel(count_char, 2);
            }
        }
    }
}

/// A line without the carriage return that ends it, if one does.
pub open spec fn strip_cr(l: Seq<char>) -> Seq<char> {
    if l.len() > 0 && l.last() == '\r' {
        l.drop_last()
    } else {
        l
    }
}

/// Piece `i` of the text cut at newlines, as a buffer line: a carriage
/// return right before the newline that ends it is dropped (the last piece
/// ends no newline and keeps it), and each tab becomes four spaces.
pub open spec fn read_piece(ps: Seq<Seq<char>>, i: int) -> Seq<char> {
    expand_tabs(
        if i + 1 < ps.len() {
            strip_cr(ps[i])
        } else {
            ps[i]
        },
    )
}

/// The buffer lines read from the text of a file: the text is cut at each
/// newline (a final newline ends the last line rather than starting a new
/// one), a carriage return before a newline is dropped, and each tab
/// becomes four spaces.
pub open spec fn text_lines(s: Seq<char>) -> Seq<Seq<char>> {
    let ps = split_lines(s);
    let n = if s.len() == 0 || s.last() == '\n' {
        ps.len() - 1
    } else {
        ps.len() as int
    };
    Seq::new(n as nat, |i: int| read_piece(ps, i))
}

/// Tab expansion leaves no tab.
pub proof fn lemma_expand_tab_free(s: Seq<char>)
    ensures
        !holds(expand_tabs(s), '\t'),
    decreases s.len(),
{
    if s.len() > 0 {
        lemma_expand_tab_free(s.drop_last());
        let a = expand_tabs(s.drop_last());
        let b: Seq<char> = if s.last() == '\t' {
            seq![' ', ' ', ' ', ' ']
        } else {
            seq![s.last()]
        };
        if holds(a + b, '\t') {
            let i = choose|i: int| 0 <= i < (a + b).len() && (a + b)[i] == '\t';
            if i < a.len() {
                assert(a[i] == '\t');
            } else {
                assert(b[i - a.len()] == '\t');
            }
        }
    }
}

/// No line read from a file holds a tab.
pub proof fn lemma_read_tab_free(s: Seq<char>)
    ensures
        forall|i: int| 0 <= i < text_lines(s).len() ==> !holds(#[trigger] text_lines(s)[i], '\t'),
{
    let ps = split_lines(s);
    lemma_split_len(s);
    assert forall|i: int| 0 <= i < text_lines(s).len() implies !holds(#[trigger] text_lines(s)[i], '\t') by {
        if i + 1 < ps.len() {
            lemma_expand_tab_free(strip_cr(ps[i]));
        } else {
            lemma_expand_tab_free(ps[i]);
        }
    }
}

/// The last character of joined lines is that of the last line, when it
/// is not empty.
proof fn lemma_join_last(ps: Seq<Seq<char>>)
    requires
        ps.len() >= 1,
        ps.last().len() > 0,
    ensures
        join_lines(ps).len() > 0,
        join_lines(ps).last() == ps.last().last(),
{
}

/// Saving lines (joined by newlines) and reading the file back gives the
/// same lines, when there is at least one line, none holds a newline or a
/// tab, none but the last ends with a carriage return, and the last one is
/// not empty.
pub proof fn lemma_save_then_read(ls: Seq<Seq<char>>)
    requires
        ls.len() >= 1,
        ls.last().len() > 0,
        forall|i: int| 0 <= i < ls.len() ==> !holds(#[trigger] ls[i], '\n'),
        forall|i: int| 0 <= i < ls.len() ==> !holds(#[trigger] ls[i], '\t'),
        forall|i: int| 0 <= i < ls.len() - 1 ==> strip_cr(#[trigger] ls[i]) == ls[i],
    ensures
        text_lines(join_lines(ls)) == ls,
{
    lemma_split_join(ls);
    lemma_join_last(ls);
    let t = join_lines(ls);
    assert(ls.last() == ls[ls.len() - 1]);
    assert(!holds(ls.last(), '\n'));
    assert(t.last() != '\n') by {
        let l = ls.last();
        assert(l[l.len() - 1] == l.last());
    }
    assert forall|i: int| 0 <= i < ls.len() implies #[trigger] read_piece(ls, i) == ls[i] by {
        lemma_expand_no_tabs(ls[i]);
    }
    assert(text_lines(t) =~= ls);
}

/// The buffer lines read from the text of a file (see `text_lines`).
pub fn read_lines(text: &[char]) -> (r: Vec<Vec<char>>)
    ensures
        r@.map_values(|v: Vec<char>| v@) == text_lines(text@),
{
    let parts = split_lines_exec(text);
    let ghost ps = split_lines(text@);
    proof {
        lemma_split_len(text@);
    }
    let count = if text.len() == 0 || text[text.len() - 1] == '\n' {
        parts.len() - 1
    } else {
        parts.len()
    };
    assert(count == text_lines(text@).len());
    let mut out: Vec<Vec<char>> = Vec::new();
    let mut i: usize = 0;
    while i < count
        invariant
            i <= count,
            count <= parts@.len(),
            parts@.map_values(|v: Vec<char>| v@) == ps,
            count == text_lines(text@).len(),
            ps == split_lines(text@),
            out@.map_values(|v: Vec<char>| v@) == Seq::new(i as nat, |j: int| read_piece(ps, j)),
        decreases count - i,
    {
        let p = parts[i].as_slice();
        assert(p@ == ps[i as int]);
        let end = if i + 1 < parts.len() && p.len() > 0 && p[p.len() - 1] == '\r' {
            p.len() - 1
        } else {
            p.len()
        };
        let mut piece: Vec<char> = Vec::new();
        crate::text::push_range(&mut piece, p, 0, end);
        assert(piece@ =~= (if i + 1 < ps.len() {
            strip_cr(ps[i as int])
        } else {
            ps[i as int]
        }));
        let l = expand_tabs_exec(piece.as_slice());
        let ghost ob = out@;
        out.push(l);
        assert(out@.map_values(|v: Vec<char>| v@) =~= ob.map_values(|v: Vec<char>| v@).push(
            read_piece(ps, i as int),
        ));
        assert(out@.map_values(|v: Vec<char>| v@) =~= Seq::new((i + 1) as nat, |j: int| read_piece(ps, j)));
        i = i + 1;
    }
    assert(out@.map_values(|v: Vec<char>| v@) =~= text_lines(text@));
    out
}

/// The text saved for the buffer lines: the lines joined by newlines.
pub fn join_lines_exec(lines: &[Vec<char>]) -> (r: Vec<char>)
    ensures
        r@ == join_lines(lines@.map_values(|v: Vec<char>| v@)),
{
    let ghost ls = lines@.map_values(|v: Vec<char>| v@);
    let mut out: Vec<char> = Vec::new();
    let mut i: usize = 0;
    while i < lines.len()
        invariant
            i <= lines@.len(),
            ls == lines@.map_values(|v: Vec<char>| v@),
            out@ == join_lines(ls.take(i as int)),
        decreases lines@.len() - i,
    {
        if i > 0 {
            out.push('\n');
        }
        crate::text::push_slice(&mut out, lines[i].as_slice());
        assert(ls.take(i + 1).drop_last() =~= ls.take(i as int));
        assert(ls.take(i + 1).last() == lines@[i as int]@);
        assert(out@ =~= join_lines(ls.take(i + 1)));
        i = i + 1;
    }
    assert(ls.take(lines@.len() as int) =~= ls);
    out
}

} // verus!
