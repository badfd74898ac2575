use vstd::prelude::*;

use crate::color::{bg_escape, fg_escape, hex2ascii, hex2ascii_bg};
use crate::text::{chars_eq, chars_of, contains_chars, has_infix, push_slice};

verus! {

/// The colour classes that scopes are painted in.
#[derive(Clone, Copy, Debug, PartialEq, Eq, Structural)]
pub enum ScopeClass {
    Source,
    Type,
    Keyword,
    Const,
    Func,
    Comment,
}

/// The escapes of a colour theme.
pub struct Theme {
    pub fg_source: Vec<char>,
    pub fg_type: Vec<char>,
    pub fg_keyword: Vec<char>,
    pub fg_const: Vec<char>,
    pub fg_func: Vec<char>,
    pub fg_comment: Vec<char>,
    pub bg_default: Vec<char>,
    pub bg_active: Vec<char>,
}

impl Theme {
    /// The foreground escape of a class.
    pub open spec fn fg_of(&self, c: ScopeClass) -> Seq<char> {
        match c {
            ScopeClass::Source => self.fg_source@,
            ScopeClass::Type => self.fg_type@,
            ScopeClass::Keyword => self.fg_keyword@,
            ScopeClass::Const => self.fg_const@,
            ScopeClass::Func => self.fg_func@,
            ScopeClass::Comment => self.fg_comment@,
        }
    }

    /// A theme from `0xRRGGBB` colours.
    pub fn from_colors(
        source: u64,
        type_: u64,
        keyword: u64,
        constant: u64,
        func: u64,
        comment: u64,
        background: u64,
        active: u64,
    ) -> (t: Theme)
        ensures
            t.fg_source@ == fg_escape(source),
            t.fg_type@ == fg_escape(type_),
            t.fg_keyword@ == fg_escape(keyword),
            t.fg_const@ == fg_escape(constant),
            t.fg_func@ == fg_escape(func),
            t.fg_comment@ == fg_escape(comment),
            t.bg_default@ == bg_escape(background),
            t.bg_active@ == bg_escape(active),
    {
        Theme {
            fg_source: hex2ascii(source),
            fg_type: hex2ascii(type_),
            fg_keyword: hex2ascii(keyword),
            fg_const: hex2ascii(constant),
            fg_func: hex2ascii(func),
            fg_comment: hex2ascii(comment),
            bg_default: hex2ascii_bg(background),
            bg_active: hex2ascii_bg(active),
        }
    }

    fn fg(&self, c: ScopeClass) -> (r: &Vec<char>)
        ensures
            r@ == self.fg_of(c),
    {
        match c {
            ScopeClass::Source => &self.fg_source,
            ScopeClass::Type => &self.fg_type,
            ScopeClass::Keyword => &self.fg_keyword,
            ScopeClass::Const => &self.fg_const,
            ScopeClass::Func => &self.fg_func,
            ScopeClass::Comment => &self.fg_comment,
        }
    }
}

/// The class a scope name is painted in: the first group of markers, in this
/// order, that occurs in the name decides.
pub open spec fn scope_class(s: Seq<char>) -> ScopeClass {
    if has_infix(s, "comment"@) {
        ScopeClass::Comment
    } else if has_infix(s, "entity.name.function"@) || has_infix(s, "variable.function"@)
        || has_infix(s, "support.function"@) || has_infix(s, "meta.function"@) || has_infix(
        s,
        "support.macro"@,
    ) {
        ScopeClass::Func
    } else if has_infix(s, "storage.type"@) || has_infix(s, "support.type"@) || has_infix(
        s,
        "entity.name.type"@,
    ) || has_infix(s, "entity.name.class"@) || has_infix(s, "entity.name.struct"@) || has_infix(
        s,
        "entity.name.enum"@,
    ) || has_infix(s, "entity.name.trait"@) {
        ScopeClass::Type
    } else if has_infix(s, "constant"@) || has_infix(s, "string"@) || has_infix(s, "character"@)
        || has_infix(s, "numeric"@) {
        ScopeClass::Const
    } else if has_infix(s, "keyword"@) || has_infix(s, "storage.modifier"@) || has_infix(
        s,
        "preprocessor"@,
    ) {
        ScopeClass::Keyword
    } else {
        ScopeClass::Source
    }
}

/// A scope naming a comment is painted as a comment, whatever else it names.
pub proof fn lemma_comment_class(s: Seq<char>)
    requires
        has_infix(s, "comment"@),
    ensures
        scope_class(s) == ScopeClass::Comment,
{
}

/// Whether a scope names none of the comment, function, type and constant
/// markers.
pub open spec fn plain_of_earlier_markers(s: Seq<char>) -> bool {
    &&& !has_infix(s, "comment"@)
    &&& !has_infix(s, "entity.name.function"@)
    &&& !has_infix(s, "variable.function"@)
    &&& !has_infix(s, "support.function"@)
    &&& !has_infix(s, "meta.function"@)
    &&& !has_infix(s, "support.macro"@)
    &&& !has_infix(s, "storage.type"@)
    &&& !has_infix(s, "support.type"@)
    &&& !has_infix(s, "entity.name.type"@)
    &&& !has_infix(s, "entity.name.class"@)
    &&& !has_infix(s, "entity.name.struct"@)
    &&& !has_infix(s, "entity.name.enum"@)
    &&& !has_infix(s, "entity.name.trait"@)
    &&& !has_infix(s, "constant"@)
    &&& !has_infix(s, "string"@)
    &&& !has_infix(s, "character"@)
    &&& !has_infix(s, "numeric"@)
}

/// A scope naming a function or a macro, and no comment, is painted as a
/// function.
pub proof fn lemma_function_class(s: Seq<char>)
    requires
        !has_infix(s, "comment"@),
        has_infix(s, "entity.name.function"@) || has_infix(s, "variable.function"@) || has_infix(
            s,
            "support.function"@,
        ) || has_infix(s, "meta.function"@) || has_infix(s, "support.macro"@),
    ensures
        scope_class(s) == ScopeClass::Func,
{
}

/// A scope naming a constant, a string, a character or a number, and no
/// comment, function or type, is painted as a constant.
pub proof fn lemma_constant_class(s: Seq<char>)
    requires
        !has_infix(s, "comment"@),
        !has_infix(s, "entity.name.function"@),
        !has_infix(s, "variable.function"@),
        !has_infix(s, "support.function"@),
        !has_infix(s, "meta.function"@),
        !has_infix(s, "support.macro"@),
        !has_infix(s, "storage.type"@),
        !has_infix(s, "support.type"@),
        !has_infix(s, "entity.name.type"@),
        !has_infix(s, "entity.name.class"@),
        !has_infix(s, "entity.name.struct"@),
        !has_infix(s, "entity.name.enum"@),
        !has_infix(s, "entity.name.trait"@),
        has_infix(s, "constant"@) || has_infix(s, "string"@) || has_infix(s, "character"@) || has_infix(
            s,
            "numeric"@,
        ),
    ensures
        scope_class(s) == ScopeClass::Const,
{
}

/// A scope naming a storage modifier, a keyword or a preprocessor item, and
/// no comment, function, type or constant, is painted as a keyword.
pub proof fn lemma_keyword_class(s: Seq<char>)
    requires
        plain_of_earlier_markers(s),
        has_infix(s, "storage.modifier"@) || has_infix(s, "keyword"@) || has_infix(s, "preprocessor"@),
    ensures
        scope_class(s) == ScopeClass::Keyword,
{
}

/// A scope that names no marker at all is painted as plain source.
pub proof fn lemma_source_class(s: Seq<char>)
    requires
        plain_of_earlier_markers(s),
        !has_infix(s, "storage.modifier"@),
        !has_infix(s, "keyword"@),
        !has_infix(s, "preprocessor"@),
    ensures
        scope_class(s) == ScopeClass::Source,
{
}

fn has(s: &[char], marker: &str) -> (r: bool)
    ensures
        r == has_infix(s@, marker@),
{
    let m = chars_of(marker);
    contains_chars(s, &m)
}

/// The colour class of a scope name.
pub fn classify_scope(scope: &str) -> (c: ScopeClass)
    ensures
        c == scope_class(scope@),
{
    let s = chars_of(scope);
    if has(&s, "comment") {
        ScopeClass::Comment
    } else if has(&s, "entity.name.function") || has(&s, "variable.function") || has(
        &s,
        "support.function",
    ) || has(&s, "meta.function") || has(&s, "support.macro") {
        ScopeClass::Func
    } else if has(&s, "storage.type") || has(&s, "support.type") || has(&s, "entity.name.type")
        || has(&s, "entity.name.class") || has(&s, "entity.name.struct") || has(
        &s,
        "entity.name.enum",
    ) || has(&s, "entity.name.trait") {
        ScopeClass::Type
    } else if has(&s, "constant") || has(&s, "string") || has(&s, "character") || has(
        &s,
        "numeric",
    ) {
        ScopeClass::Const
    } else if has(&s, "keyword") || has(&s, "storage.modifier") || has(&s, "preprocessor") {
        ScopeClass::Keyword
    } else {
        ScopeClass::Source
    }
}

/// The foreground escape that a scope is painted with.
pub fn fg_for_scope<'a>(scope: &str, theme: &'a Theme) -> (r: &'a Vec<char>)
    ensures
        r@ == theme.fg_of(scope_class(scope@)),
{
    let c = classify_scope(scope);
    theme.fg(c)
}

/// The class of the last run that covers `col` (runs cover their end column).
pub open spec fn covering_class(runs: Seq<((usize, usize), String)>, col: int) -> Option<
    ScopeClass,
>
    decreases runs.len(),
{
    if runs.len() == 0 {
        None
    } else if runs.last().0.0 <= col <= runs.last().0.1 {
        Some(scope_class(runs.last().1@))
    } else {
        covering_class(runs.drop_last(), col)
    }
}

/// The class column `col` is painted in: that of the last run covering it,
/// else plain source.
pub open spec fn column_class(runs: Seq<((usize, usize), String)>, col: int) -> ScopeClass {
    match covering_class(runs, col) {
        Some(c) => c,
        None => ScopeClass::Source,
    }
}

/// The painted text of the columns `start..i` (with `start < i`): the escape
/// of the first column, then each character, with the new escape in front of
/// each column whose escape differs from that of the column before.
pub open spec fn painted(
    theme: &Theme,
    text: Seq<char>,
    runs: Seq<((usize, usize), String)>,
    start: int,
    i: int,
) -> Seq<char>
    decreases i - start,
{
    if i <= start + 1 {
        theme.fg_of(column_class(runs, start)) + seq![text[start]]
    } else {
        let f = theme.fg_of(column_class(runs, i - 1));
        let g = theme.fg_of(column_class(runs, i - 2));
        painted(theme, text, runs, start, i - 1) + (if f == g {
            Seq::<char>::empty()
        } else {
            f
        }) + seq![text[i - 1]]
    }
}

/// What rendering the columns `start..end` of a line appends to the screen.
pub open spec fn segment_output(
    theme: &Theme,
    text: Seq<char>,
    runs: Seq<((usize, usize), String)>,
    start: int,
    end: int,
    bg: Seq<char>,
) -> Seq<char> {
    if start < end {
        bg + painted(theme, text, runs, start, end) + bg + theme.fg_source@
    } else {
        Seq::empty()
    }
}

proof fn lemma_covering_step(runs: Seq<((usize, usize), String)>, k: int, col: int)
    requires
        0 <= k < runs.len(),
    ensures
        covering_class(runs.take(k + 1), col) == (if runs[k].0.0 <= col <= runs[k].0.1 {
            Some(scope_class(runs[k].1@))
        } else {
            covering_class(runs.take(k), col)
        }),
{
    assert(runs.take(k + 1).drop_last() =~= runs.take(k));
    assert(runs.take(k + 1).last() == runs[k]);
}

/// Renders the columns `start..end` of `text`, painted by `runs`, on the
/// background `bg`, and appends the result to `screen`.
pub fn render_line_segment(
    screen: &mut Vec<char>,
    text: &[char],
    runs: &[((usize, usize), String)],
    start: usize,
    end: usize,
    bg: &[char],
    theme: &Theme,
)
    requires
        start < end ==> end <= text@.len(),
    ensures
        final(screen)@ == old(screen)@ + segment_output(theme, text@, runs@, start as int, end as int, bg@),
{
    if start >= end {
        assert(final(screen)@ =~= old(screen)@ + Seq::<char>::empty());
        return;
    }
    let width = end - start;
    let mut colors: Vec<ScopeClass> = Vec::new();
    let mut j: usize = 0;
    while j < width
        invariant
            j <= width,
            colors@.len() == j,
            forall|c: int| 0 <= c < j ==> colors@[c] == ScopeClass::Source,
        decreases width - j,
    {
        colors.push(ScopeClass::Source);
        j = j + 1;
    }
    assert(runs@.take(0) =~= Seq::<((usize, usize), String)>::empty());
    let mut k: usize = 0;
    while k < runs.len()
        invariant
            width == end - start,
            k <= runs@.len(),
            colors@.len() == width,
            forall|c: int|
                0 <= c < width ==> #[trigger] colors@[c] == column_class(runs@.take(k as int), start + c),
        decreases runs@.len() - k,
    {
        let run_start = runs[k].0.0;
        let run_end = runs[k].0.1;
        let seg_start = if run_start > start {
            run_start
        } else {
            start
        };
        let bumped = run_end.saturating_add(1);
        let seg_end = if bumped < end {
            bumped
        } else {
            end
        };
        let ghost before = colors@;
        if seg_start < seg_end {
            let cls = classify_scope(runs[k].1.as_str());
            let mut c = seg_start - start;
            while c < seg_end - start
                invariant
                    seg_start - start <= c <= seg_end - start,
                    seg_end <= end,
                    width == end - start,
                    colors@.len() == width,
                    forall|x: int|
                        0 <= x < width ==> #[trigger] colors@[x] == if seg_start - start <= x < c {
                            cls
                        } else {
                            before[x]
                        },
                decreases seg_end - start - c,
            {
                colors.set(c, cls);
                c = c + 1;
            }
        }
        proof {
            assert forall|c: int| 0 <= c < width implies #[trigger] colors@[c] == column_class(
                runs@.take(k + 1),
                start + c,
            ) by {
                lemma_covering_step(runs@, k as int, start + c);
            }
        }
        k = k + 1;
    }
    assert(runs@.take(runs@.len() as int) =~= runs@);
    push_slice(screen, bg);
    let ghost mid = screen@;
    let mut cur = colors[0];
    push_slice(screen, theme.fg(cur).as_slice());
    screen.push(text[start]);
    let mut idx: usize = start + 1;
    while idx < end
        invariant
            start < idx <= end <= text@.len(),
            width == end - start,
            colors@.len() == width,
            forall|c: int| 0 <= c < width ==> #[trigger] colors@[c] == column_class(runs@, start + c),
            cur == colors@[idx - start - 1],
            screen@ == mid + painted(theme, text@, runs@, start as int, idx as int),
        decreases end - idx,
    {
        let fg = colors[idx - start];
        if !chars_eq(theme.fg(fg).as_slice(), theme.fg(cur).as_slice()) {
            push_slice(screen, theme.fg(fg).as_slice());
        }
        screen.push(text[idx]);
        cur = fg;
        idx = idx + 1;
    }
    push_slice(screen, bg);
    push_slice(screen, theme.fg_source.as_slice());
    assert(final(screen)@ =~= old(screen)@ + segment_output(
        theme,
        text@,
        runs@,
        start as int,
        end as int,
        bg@,
    ));
}

} // verus!
