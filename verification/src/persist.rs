//! A notebook as plain text: the blocks' sources separated by lines that
//! are exactly `%%`. Only source text is ever written, never output.
use vstd::prelude::*;
use crate::block::Block;
use crate::text::{chars_of, push_char, push_str, string_from_chars};

verus! {

/// `char::is_whitespace`: the Unicode `White_Space` characters.
pub open spec fn is_white(c: char) -> bool {
    let n = c as int;
    ||| 0x09 <= n <= 0x0D
    ||| n == 0x20
    ||| n == 0x85
    ||| n == 0xA0
    ||| n == 0x1680
    ||| 0x2000 <= n <= 0x200A
    ||| n == 0x2028
    ||| n == 0x2029
    ||| n == 0x202F
    ||| n == 0x205F
    ||| n == 0x3000
}

pub fn is_white_char(c: char) -> (r: bool)
    ensures
        r == is_white(c),
{
    let n = c as u32;
    (0x09 <= n && n <= 0x0D) || n == 0x20 || n == 0x85 || n == 0xA0 || n == 0x1680 || (0x2000 <= n
        && n <= 0x200A) || n == 0x2028 || n == 0x2029 || n == 0x202F || n == 0x205F || n == 0x3000
}

/// Nothing but whitespace (`str::trim` leaves it empty).
pub open spec fn all_white(t: Seq<char>) -> bool {
    forall|i: int| 0 <= i < t.len() ==> is_white(#[trigger] t[i])
}

/// The pieces of `t` between its `'\n'`s (one more piece than there are
/// newlines).
pub open spec fn raw_lines(t: Seq<char>) -> Seq<Seq<char>>
    decreases t.len(),
{
    if t.len() == 0 {
        seq![Seq::empty()]
    } else {
        let r = raw_lines(t.drop_last());
        if t.last() == '\n' {
            r.push(Seq::empty())
        } else {
            r.update(r.len() - 1, r.last().push(t.last()))
        }
    }
}

/// `l` without one trailing `'\r'`.
pub open spec fn strip_cr(l: Seq<char>) -> Seq<char> {
    if l.len() > 0 && l.last() == '\r' {
        l.drop_last()
    } else {
        l
    }
}

/// `str::lines`: the pieces between newlines, a `"\r\n"` ending counting
/// as one newline, and no final empty piece after a last newline.
pub open spec fn text_lines(t: Seq<char>) -> Seq<Seq<char>> {
    let r = raw_lines(t);
    let n: int = if r.last().len() == 0 {
        r.len() - 1
    } else {
        r.len() as int
    };
    Seq::new(
        n as nat,
        |i: int|
            if i < r.len() - 1 {
                strip_cr(r[i])
            } else {
                r[i]
            },
    )
}

/// `l` without any trailing `'\r'`s.
pub open spec fn trim_crs(l: Seq<char>) -> Seq<char>
    decreases l.len(),
{
    if l.len() > 0 && l.last() == '\r' {
        trim_crs(l.drop_last())
    } else {
        l
    }
}

/// A line that separates two blocks: `%%`, trailing `'\r'`s ignored.
pub open spec fn is_delimiter(l: Seq<char>) -> bool {
    trim_crs(l) == seq!['%', '%']
}

/// The blocks that a sequence of lines forms: each non-delimiter line,
/// with a `'\n'` after it, goes to the current block; a delimiter line
/// starts a new one.
pub open spec fn group_lines(ls: Seq<Seq<char>>) -> Seq<Seq<char>>
    decreases ls.len(),
{
    if ls.len() == 0 {
        seq![Seq::empty()]
    } else {
        let g = group_lines(ls.drop_last());
        if is_delimiter(ls.last()) {
            g.push(Seq::empty())
        } else {
            g.update(g.len() - 1, g.last() + ls.last().push('\n'))
        }
    }
}

/// `b` without one trailing `'\n'`.
pub open spec fn strip_nl(b: Seq<char>) -> Seq<char> {
    if b.len() > 0 && b.last() == '\n' {
        b.drop_last()
    } else {
        b
    }
}

/// The block sources a notebook file holds.
pub open spec fn parse_sources_spec(t: Seq<char>) -> Seq<Seq<char>> {
    if all_white(t) {
        Seq::empty()
    } else {
        group_lines(text_lines(t)).map_values(|b: Seq<char>| strip_nl(b))
    }
}

proof fn lemma_raw_lines_nonempty(t: Seq<char>)
    ensures
        raw_lines(t).len() >= 1,
    decreases t.len(),
{
    if t.len() > 0 {
        lemma_raw_lines_nonempty(t.drop_last());
    }
}

proof fn lemma_group_lines_nonempty(ls: Seq<Seq<char>>)
    ensures
        group_lines(ls).len() >= 1,
    decreases ls.len(),
{
    if ls.len() > 0 {
        lemma_group_lines_nonempty(ls.drop_last());
    }
}

/// Whether `line` separates two blocks: exactly `%%`, trailing `'\r'`s
/// ignored.
pub fn is_delimiter_line(line: &str) -> (r: bool)
    ensures
        r == is_delimiter(line@),
{
    let cs = chars_of(line);
    is_delimiter_chars(&cs)
}

fn is_delimiter_chars(cs: &Vec<char>) -> (r: bool)
    ensures
        r == is_delimiter(cs@),
{
    let mut n: usize = cs.len();
    proof {
        assert(cs@.subrange(0, n as int) =~= cs@);
    }
    while n > 0 && cs[n - 1] == '\r'
        invariant
            n <= cs@.len(),
            trim_crs(cs@.subrange(0, n as int)) == trim_crs(cs@),
        decreases n,
    {
        proof {
            assert(cs@.subrange(0, n as int).drop_last() =~= cs@.subrange(0, n - 1));
        }
        n -= 1;
    }
    proof {
        assert(trim_crs(cs@.subrange(0, n as int)) == cs@.subrange(0, n as int));
    }
    let r = n == 2 && cs[0] == '%' && cs[1] == '%';
    proof {
        if r {
            assert(cs@.subrange(0, n as int) =~= seq!['%', '%']);
        } else if n == 2 {
            assert(cs@.subrange(0, 2)[0] == cs@[0]);
            assert(cs@.subrange(0, 2)[1] == cs@[1]);
        }
    }
    r
}

/// Whether every character of `cs` is whitespace.
fn all_white_chars(cs: &Vec<char>) -> (r: bool)
    ensures
        r == all_white(cs@),
{
    let mut i: usize = 0;
    while i < cs.len()
        invariant
            i <= cs@.len(),
            forall|k: int| 0 <= k < i ==> is_white(#[trigger] cs@[k]),
        decreases cs@.len() - i,
    {
        if !is_white_char(cs[i]) {
            return false;
        }
        i += 1;
    }
    true
}

/// The pieces of `cs` between its newlines.
fn split_raw(cs: &Vec<char>) -> (r: Vec<Vec<char>>)
    ensures
        r@.len() >= 1,
        r@.map_values(|v: Vec<char>| v@) == raw_lines(cs@),
{
    let mut r: Vec<Vec<char>> = Vec::new();
    r.push(Vec::new());
    let mut i: usize = 0;
    proof {
        assert(cs@.subrange(0, 0) =~= Seq::<char>::empty());
        assert(r@.map_values(|v: Vec<char>| v@) =~= raw_lines(Seq::<char>::empty()));
    }
    while i < cs.len()
        invariant
            i <= cs@.len(),
            r@.len() >= 1,
            r@.map_values(|v: Vec<char>| v@) == raw_lines(cs@.subrange(0, i as int)),
        decreases cs@.len() - i,
    {
        let c = cs[i];
        let ghost before = r@.map_values(|v: Vec<char>| v@);
        proof {
            assert(cs@.subrange(0, i + 1).drop_last() =~= cs@.subrange(0, i as int));
            assert(cs@.subrange(0, i + 1).last() == c);
        }
        if c == '\n' {
            r.push(Vec::new());
            proof {
                assert(r@.map_values(|v: Vec<char>| v@) =~= before.push(Seq::empty()));
            }
        } else {
            let last = r.len() - 1;
            let mut piece: Vec<char> = Vec::new();
            std::mem::swap(&mut piece, &mut r[last]);
            piece.push(c);
            r.set(last, piece);
            proof {
                assert(r@.map_values(|v: Vec<char>| v@) =~= before.update(
                    before.len() - 1,
                    before.last().push(c),
                ));
            }
        }
        i += 1;
    }
    proof {
        assert(cs@.subrange(0, i as int) =~= cs@);
    }
    r
}


/// The characters of each piece.
pub open spec fn char_rows(v: Seq<Vec<char>>) -> Seq<Seq<char>> {
    v.map_values(|x: Vec<char>| x@)
}

/// The lines of `cs`, as `str::lines` gives them.
pub fn split_lines(cs: &Vec<char>) -> (r: Vec<Vec<char>>)
    ensures
        char_rows(r@) == text_lines(cs@),
{
    let raw = split_raw(cs);
    let ghost rv = raw_lines(cs@);
    let rn = raw.len();
    let n: usize = if raw[rn - 1].len() == 0 {
        rn - 1
    } else {
        rn
    };
    proof {
        assert(raw@[rn - 1]@ == rv[rn - 1]);
    }
    let mut r: Vec<Vec<char>> = Vec::new();
    let mut i: usize = 0;
    while i < n
        invariant
            i <= n,
            n <= rn,
            rn == raw@.len(),
            rn >= 1,
            char_rows(raw@) == rv,
            rv == raw_lines(cs@),
            n == (if rv.last().len() == 0 {
                rv.len() - 1
            } else {
                rv.len() as int
            }),
            char_rows(r@) == text_lines(cs@).subrange(0, i as int),
        decreases n - i,
    {
        let mut l: Vec<char> = copy_chars(&raw[i]);
        proof {
            assert(raw@[i as int]@ == rv[i as int]);
        }
        if i < rn - 1 && l.len() > 0 && l[l.len() - 1] == '\r' {
            l.pop();
            proof {
                assert(l@ =~= strip_cr(rv[i as int]));
            }
        }
        proof {
            assert(l@ == text_lines(cs@)[i as int]);
            assert(char_rows(r@.push(l)) =~= char_rows(r@).push(l@));
            assert(text_lines(cs@).subrange(0, i + 1) =~= text_lines(cs@).subrange(0, i as int).push(
                l@,
            ));
        }
        r.push(l);
        i += 1;
    }
    proof {
        assert(text_lines(cs@).subrange(0, i as int) =~= text_lines(cs@));
    }
    r
}

fn copy_chars(v: &Vec<char>) -> (r: Vec<char>)
    ensures
        r@ == v@,
{
    let mut r: Vec<char> = Vec::new();
    let mut i: usize = 0;
    while i < v.len()
        invariant
            i <= v@.len(),
            r@ == v@.subrange(0, i as int),
        decreases v@.len() - i,
    {
        r.push(v[i]);
        i += 1;
    }
    assert(r@ =~= v@);
    r
}

/// The blocks that `ls` forms.
fn group(ls: &Vec<Vec<char>>) -> (r: Vec<Vec<char>>)
    ensures
        char_rows(r@) == group_lines(char_rows(ls@)),
{
    let mut r: Vec<Vec<char>> = Vec::new();
    r.push(Vec::new());
    let ghost lv = char_rows(ls@);
    proof {
        assert(lv.subrange(0, 0) =~= Seq::<Seq<char>>::empty());
        assert(char_rows(r@) =~= group_lines(Seq::<Seq<char>>::empty()));
    }
    let mut i: usize = 0;
    while i < ls.len()
        invariant
            i <= ls@.len(),
            lv == char_rows(ls@),
            r@.len() >= 1,
            char_rows(r@) == group_lines(lv.subrange(0, i as int)),
        decreases ls@.len() - i,
    {
        let ghost before = char_rows(r@);
        proof {
            assert(lv.subrange(0, i + 1).drop_last() =~= lv.subrange(0, i as int));
            assert(lv.subrange(0, i + 1).last() == ls@[i as int]@);
        }
        if is_delimiter_chars(&ls[i]) {
            r.push(Vec::new());
            proof {
                assert(char_rows(r@) =~= before.push(Seq::empty()));
            }
        } else {
            let last = r.len() - 1;
            let mut piece: Vec<char> = Vec::new();
            std::mem::swap(&mut piece, &mut r[last]);
            let line = &ls[i];
            let mut j: usize = 0;
            let ghost start = piece@;
            while j < line.len()
                invariant
                    j <= line@.len(),
                    piece@ == start + line@.subrange(0, j as int),
                decreases line@.len() - j,
            {
                piece.push(line[j]);
                j += 1;
            }
            piece.push('\n');
            proof {
                assert(line@.subrange(0, j as int) =~= line@);
                assert(piece@ =~= start + line@.push('\n'));
            }
            r.set(last, piece);
            proof {
                assert(char_rows(r@) =~= before.update(
                    before.len() - 1,
                    before.last() + ls@[i as int]@.push('\n'),
                ));
            }
        }
        i += 1;
    }
    proof {
        assert(lv.subrange(0, i as int) =~= lv);
    }
    r
}

/// Splits a notebook file back into its blocks' sources: on lines that
/// are exactly `%%` (trailing `'\r'`s ignored), each block losing the
/// one newline that ended its last line. A file that is empty or only
/// whitespace holds no blocks, not one empty block.
pub fn parse_sources(text: &str) -> (r: Vec<String>)
    ensures
        r@.map_values(|s: String| s@) == parse_sources_spec(text@),
{
    let cs = chars_of(text);
    if all_white_chars(&cs) {
        let r: Vec<String> = Vec::new();
        assert(r@.map_values(|s: String| s@) =~= Seq::<Seq<char>>::empty());
        return r;
    }
    let ls = split_lines(&cs);
    let g = group(&ls);
    let ghost gv = group_lines(text_lines(text@));
    let mut r: Vec<String> = Vec::new();
    let mut i: usize = 0;
    while i < g.len()
        invariant
            i <= g@.len(),
            char_rows(g@) == gv,
            gv == group_lines(text_lines(text@)),
            r@.map_values(|s: String| s@) == gv.map_values(|b: Seq<char>| strip_nl(b)).subrange(
                0,
                i as int,
            ),
        decreases g@.len() - i,
    {
        let b = &g[i];
        proof {
            assert(b@ == gv[i as int]);
        }
        let end: usize = if b.len() > 0 && b[b.len() - 1] == '\n' {
            b.len() - 1
        } else {
            b.len()
        };
        let s = string_from_chars(b, 0, end);
        proof {
            assert(s@ =~= strip_nl(gv[i as int]));
            assert(r@.push(s).map_values(|s: String| s@) =~= r@.map_values(|s: String| s@).push(s@));
            assert(gv.map_values(|b: Seq<char>| strip_nl(b)).subrange(0, i + 1) =~= gv.map_values(
                |b: Seq<char>| strip_nl(b),
            ).subrange(0, i as int).push(s@));
        }
        r.push(s);
        i += 1;
    }
    proof {
        assert(gv.map_values(|b: Seq<char>| strip_nl(b)).subrange(0, i as int) =~= gv.map_values(
            |b: Seq<char>| strip_nl(b),
        ));
    }
    r
}


/// Whether one of the lines of `s` is a block delimiter.
pub open spec fn has_delimiter_line(s: Seq<char>) -> bool {
    exists|j: int| 0 <= j < text_lines(s).len() && is_delimiter(#[trigger] text_lines(s)[j])
}

/// A block's text in the file: its source, ending with a newline.
pub open spec fn block_text(s: Seq<char>) -> Seq<char> {
    if s.len() > 0 && s.last() == '\n' {
        s
    } else {
        s.push('\n')
    }
}

/// The file that holds the block sources `srcs`.
pub open spec fn render_spec(srcs: Seq<Seq<char>>) -> Seq<char>
    decreases srcs.len(),
{
    if srcs.len() == 0 {
        Seq::empty()
    } else if srcs.len() == 1 {
        block_text(srcs[0])
    } else {
        render_spec(srcs.drop_last()) + seq!['%', '%', '\n'] + block_text(srcs.last())
    }
}

/// The sources of `blocks`.
pub open spec fn sources(blocks: Seq<Block>) -> Seq<Seq<char>> {
    blocks.map_values(|b: Block| b.source@)
}

/// A block's own source contains a line that is exactly the delimiter:
/// writing it would split the block in two on the next load.
#[derive(Debug)]
pub struct BlockContainsDelimiter {
    /// 1-based.
    pub block_number: usize,
}

fn contains_delimiter_line(source: &String) -> (r: bool)
    ensures
        r == has_delimiter_line(source@),
{
    let cs = chars_of(source.as_str());
    let ls = split_lines(&cs);
    let mut j: usize = 0;
    while j < ls.len()
        invariant
            j <= ls@.len(),
            char_rows(ls@) == text_lines(source@),
            forall|k: int| 0 <= k < j ==> !is_delimiter(#[trigger] text_lines(source@)[k]),
        decreases ls@.len() - j,
    {
        proof {
            assert(ls@[j as int]@ == text_lines(source@)[j as int]);
        }
        if is_delimiter_chars(&ls[j]) {
            return true;
        }
        j += 1;
    }
    false
}

/// The notebook file for `blocks`: their sources in order, each ending
/// with a newline, separated by `%%` lines. Refused, naming the first
/// offending block, when a source contains a delimiter line itself.
pub fn render(blocks: &[Block]) -> (r: Result<String, BlockContainsDelimiter>)
    ensures
        match r {
            Ok(t) => (forall|i: int|
                0 <= i < blocks@.len() ==> !has_delimiter_line(#[trigger] blocks@[i].source@)) && t@
                == render_spec(sources(blocks@)),
            Err(e) => 1 <= e.block_number <= blocks@.len() && has_delimiter_line(
                blocks@[e.block_number - 1].source@,
            ) && forall|j: int|
                0 <= j < e.block_number - 1 ==> !has_delimiter_line(#[trigger] blocks@[j].source@),
        },
{
    let mut i: usize = 0;
    while i < blocks.len()
        invariant
            i <= blocks@.len(),
            forall|j: int| 0 <= j < i ==> !has_delimiter_line(#[trigger] blocks@[j].source@),
        decreases blocks@.len() - i,
    {
        if contains_delimiter_line(&blocks[i].source) {
            return Err(BlockContainsDelimiter { block_number: i + 1 });
        }
        i += 1;
    }
    let ghost srcs = sources(blocks@);
    let mut out = String::new();
    let mut i: usize = 0;
    proof {
        assert(srcs.subrange(0, 0) =~= Seq::<Seq<char>>::empty());
    }
    while i < blocks.len()
        invariant
            i <= blocks@.len(),
            srcs == sources(blocks@),
            out@ == render_spec(srcs.subrange(0, i as int)),
        decreases blocks@.len() - i,
    {
        let src = &blocks[i].source;
        proof {
            assert(srcs.subrange(0, i + 1).drop_last() =~= srcs.subrange(0, i as int));
            assert(srcs.subrange(0, i + 1).last() == src@);
        }
        if i > 0 {
            push_str(&mut out, "%%\n");
            proof {
                reveal_strlit("%%\n");
            }
        }
        push_str(&mut out, src.as_str());
        let cs = chars_of(src.as_str());
        if !(cs.len() > 0 && cs[cs.len() - 1] == '\n') {
            push_char(&mut out, '\n');
        }
        proof {
            if i == 0 {
                assert(srcs.subrange(0, 1)[0] == src@);
                assert(out@ =~= render_spec(srcs.subrange(0, 1)));
            } else {
                assert(out@ =~= render_spec(srcs.subrange(0, i as int)) + seq!['%', '%', '\n']
                    + block_text(src@));
            }
        }
        i += 1;
    }
    proof {
        assert(srcs.subrange(0, i as int) =~= srcs);
    }
    Ok(out)
}


proof fn lemma_raw_lines_split(a: Seq<char>, b: Seq<char>)
    ensures
        raw_lines(a + seq!['\n'] + b) == raw_lines(a) + raw_lines(b),
    decreases b.len(),
{
    let t = a + seq!['\n'] + b;
    if b.len() == 0 {
        assert(t.drop_last() =~= a);
        assert(raw_lines(b) == seq![Seq::<char>::empty()]);
        assert(raw_lines(t) =~= raw_lines(a) + raw_lines(b));
    } else {
        let b2 = b.drop_last();
        assert(t.drop_last() =~= a + seq!['\n'] + b2);
        assert(t.last() == b.last());
        lemma_raw_lines_split(a, b2);
        lemma_raw_lines_nonempty(b2);
        lemma_raw_lines_nonempty(a);
        if b.last() == '\n' {
            assert(raw_lines(t) =~= raw_lines(a) + raw_lines(b));
        } else {
            let ra = raw_lines(a);
            let rb2 = raw_lines(b2);
            assert((ra + rb2).last() == rb2.last());
            assert(raw_lines(t) =~= raw_lines(a) + raw_lines(b));
        }
    }
}

/// The lines `ls`, each followed by a newline, run together.
pub open spec fn joined(ls: Seq<Seq<char>>) -> Seq<char>
    decreases ls.len(),
{
    if ls.len() == 0 {
        Seq::empty()
    } else {
        joined(ls.drop_last()) + ls.last().push('\n')
    }
}

proof fn lemma_joined_raw_lines(t: Seq<char>)
    ensures
        joined(raw_lines(t)) == t.push('\n'),
    decreases t.len(),
{
    if t.len() == 0 {
        let r = raw_lines(t);
        assert(r.drop_last() =~= Seq::<Seq<char>>::empty());
        assert(joined(Seq::<Seq<char>>::empty()) == Seq::<char>::empty());
        assert(r.last() == Seq::<char>::empty());
        assert(joined(r) == joined(r.drop_last()) + r.last().push('\n'));
        assert(joined(r) =~= t.push('\n'));
    } else {
        let t2 = t.drop_last();
        lemma_joined_raw_lines(t2);
        lemma_raw_lines_nonempty(t2);
        let r2 = raw_lines(t2);
        if t.last() == '\n' {
            assert(raw_lines(t).drop_last() =~= r2);
            assert(joined(raw_lines(t)) =~= t.push('\n'));
        } else {
            let r = raw_lines(t);
            assert(r.drop_last() =~= r2.drop_last());
            assert(joined(r2) == joined(r2.drop_last()) + r2.last().push('\n'));
            assert(joined(r) == joined(r2.drop_last()) + r2.last().push(t.last()).push('\n'));
            let x = joined(r2.drop_last()) + r2.last();
            assert(joined(r2.drop_last()) + r2.last().push('\n') =~= x.push('\n'));
            assert(x.push('\n') == t2.push('\n'));
            assert(x =~= x.push('\n').drop_last());
            assert(t2 =~= t2.push('\n').drop_last());
            assert(x == t2);
            assert(joined(r) =~= x.push(t.last()).push('\n'));
            assert(t =~= t2.push(t.last()));
            assert(joined(r) =~= t.push('\n'));
        }
    }
}

/// Lines that hold no delimiter only extend the current block.
proof fn lemma_group_lines_append(a: Seq<Seq<char>>, b: Seq<Seq<char>>)
    requires
        forall|j: int| 0 <= j < b.len() ==> !is_delimiter(#[trigger] b[j]),
    ensures
        group_lines(a + b) == group_lines(a).update(
            group_lines(a).len() - 1,
            group_lines(a).last() + joined(b),
        ),
    decreases b.len(),
{
    lemma_group_lines_nonempty(a);
    let g = group_lines(a);
    if b.len() == 0 {
        assert(a + b =~= a);
        assert(g.last() + joined(b) =~= g.last());
        assert(g.update(g.len() - 1, g.last()) =~= g);
    } else {
        let b2 = b.drop_last();
        lemma_group_lines_append(a, b2);
        assert((a + b).drop_last() =~= a + b2);
        assert((a + b).last() == b.last());
        assert(!is_delimiter(b.last()));
        let g2 = group_lines(a + b2);
        assert(g2.last() == g.last() + joined(b2));
        assert(g2.last() + b.last().push('\n') =~= g.last() + joined(b));
        assert(group_lines(a + b) =~= g.update(g.len() - 1, g.last() + joined(b)));
    }
}

/// The lines of the file for `srcs`: each source's pieces, with a `%%`
/// between consecutive sources.
pub open spec fn file_lines(srcs: Seq<Seq<char>>) -> Seq<Seq<char>>
    decreases srcs.len(),
{
    if srcs.len() <= 1 {
        raw_lines(srcs[0])
    } else {
        file_lines(srcs.drop_last()) + seq![seq!['%', '%']] + raw_lines(srcs.last())
    }
}

/// A source that the file format can carry unchanged: no delimiter
/// line, no final newline (the one the file adds would be taken for
/// it), and no carriage return that ends a line.
pub open spec fn storable(s: Seq<char>) -> bool {
    &&& !has_delimiter_line(s)
    &&& !(s.len() > 0 && s.last() == '\n')
    &&& forall|j: int|
        0 <= j < s.len() && #[trigger] s[j] == '\r' ==> j + 1 < s.len() && s[j + 1] != '\n'
}

proof fn lemma_no_cr_piece(t: Seq<char>)
    requires
        forall|j: int|
            0 <= j < t.len() - 1 && #[trigger] t[j] == '\r' ==> t[j + 1] != '\n',
    ensures
        forall|k: int|
            0 <= k < raw_lines(t).len() - 1 ==> !(#[trigger] raw_lines(t)[k].len() > 0
                && raw_lines(t)[k].last() == '\r'),
    decreases t.len(),
{
    if t.len() > 0 {
        let t2 = t.drop_last();
        assert forall|j: int| 0 <= j < t2.len() - 1 && #[trigger] t2[j] == '\r' implies t2[j + 1]
            != '\n' by {
            assert(t[j] == '\r');
            assert(t[j + 1] == t2[j + 1]);
        }
        lemma_no_cr_piece(t2);
        lemma_raw_lines_nonempty(t2);
        let r2 = raw_lines(t2);
        if t.last() == '\n' && r2.last().len() > 0 && r2.last().last() == '\r' {
            lemma_raw_last(t2);
            assert(t2.len() > 0);
            assert(t[t.len() - 2] == '\r');
        }
    }
}

/// The last piece ends with the text's last character, unless that is a
/// newline.
proof fn lemma_raw_last(t: Seq<char>)
    ensures
        t.len() > 0 && t.last() != '\n' ==> raw_lines(t).last().len() > 0 && raw_lines(t).last().last()
            == t.last(),
        raw_lines(t).last().len() > 0 ==> t.len() > 0 && t.last() != '\n' && raw_lines(t).last().last()
            == t.last(),
    decreases t.len(),
{
    if t.len() > 0 {
        lemma_raw_lines_nonempty(t.drop_last());
    }
}

/// For a storable source, the file's lines are its raw pieces, none a
/// delimiter.
proof fn lemma_storable_pieces(s: Seq<char>)
    requires
        storable(s),
    ensures
        forall|j: int| 0 <= j < raw_lines(s).len() ==> !is_delimiter(#[trigger] raw_lines(s)[j]),
        forall|k: int|
            0 <= k < raw_lines(s).len() ==> !(#[trigger] raw_lines(s)[k].len() > 0
                && raw_lines(s)[k].last() == '\r'),
{
    lemma_no_cr_piece(s);
    lemma_raw_lines_nonempty(s);
    lemma_raw_last(s);
    let r = raw_lines(s);
    if s.len() == 0 {
        assert(r == seq![Seq::<char>::empty()]);
        assert(!is_delimiter(Seq::<char>::empty()));
    } else {
        assert(s.drop_last() + seq![s.last()] =~= s);
        assert(r.last().len() > 0);
        let tl = text_lines(s);
        assert forall|j: int| 0 <= j < r.len() implies !is_delimiter(#[trigger] r[j]) by {
            assert(tl[j] == r[j]);
        }
    }
}


proof fn lemma_render_ends_with_newline(srcs: Seq<Seq<char>>)
    requires
        srcs.len() >= 1,
    ensures
        render_spec(srcs).len() > 0,
        render_spec(srcs).last() == '\n',
{
}

proof fn lemma_delimiter_piece()
    ensures
        raw_lines(seq!['%', '%']) == seq![seq!['%', '%']],
        is_delimiter(seq!['%', '%']),
{
    reveal_with_fuel(raw_lines, 3);
    let t = seq!['%', '%'];
    assert(t.drop_last() =~= seq!['%']);
    assert(seq!['%'].drop_last() =~= Seq::<char>::empty());
    let e = Seq::<char>::empty();
    assert(raw_lines(e) == seq![e]);
    assert(seq!['%'].last() == '%');
    assert(raw_lines(seq!['%']) == seq![e].update(0, e.push('%')));
    assert(raw_lines(seq!['%']) =~= seq![seq!['%']]);
    let r1 = raw_lines(seq!['%']);
    assert(t.last() == '%');
    assert(raw_lines(t) == r1.update(0, r1[0].push('%')));
    assert(seq!['%'].push('%') =~= t);
    assert(raw_lines(t) =~= seq![seq!['%', '%']]);
    assert(trim_crs(t) == t);
}

/// The raw pieces of the file for `srcs` are its lines plus one final
/// empty piece after the last newline.
proof fn lemma_file_raw(srcs: Seq<Seq<char>>)
    requires
        srcs.len() >= 1,
        forall|i: int| 0 <= i < srcs.len() ==> storable(#[trigger] srcs[i]),
    ensures
        raw_lines(render_spec(srcs)) == file_lines(srcs) + seq![Seq::<char>::empty()],
    decreases srcs.len(),
{
    let e = Seq::<char>::empty();
    if srcs.len() == 1 {
        let s0 = srcs[0];
        assert(s0.push('\n') =~= s0 + seq!['\n'] + e);
        lemma_raw_lines_split(s0, e);
        assert(raw_lines(e) == seq![e]);
    } else {
        let pre = srcs.drop_last();
        let sn = srcs.last();
        assert forall|i: int| 0 <= i < pre.len() implies storable(#[trigger] pre[i]) by {
            assert(pre[i] == srcs[i]);
        }
        assert(storable(srcs[srcs.len() - 1]));
        lemma_file_raw(pre);
        lemma_render_ends_with_newline(pre);
        let r = render_spec(pre);
        let p = r.drop_last();
        assert(r =~= p + seq!['\n'] + e);
        lemma_raw_lines_split(p, e);
        assert(raw_lines(e) == seq![e]);
        assert(raw_lines(p) + seq![e] == file_lines(pre) + seq![e]);
        assert(raw_lines(p) =~= (raw_lines(p) + seq![e]).drop_last());
        assert(file_lines(pre) =~= (file_lines(pre) + seq![e]).drop_last());
        let rest = seq!['%', '%'] + seq!['\n'] + (sn + seq!['\n'] + e);
        assert(render_spec(srcs) =~= p + seq!['\n'] + rest);
        lemma_raw_lines_split(p, rest);
        lemma_raw_lines_split(seq!['%', '%'], sn + seq!['\n'] + e);
        lemma_raw_lines_split(sn, e);
        lemma_delimiter_piece();
        assert(raw_lines(render_spec(srcs)) =~= file_lines(srcs) + seq![e]);
    }
}

/// No line of the file ends with a carriage return.
proof fn lemma_file_lines_no_cr(srcs: Seq<Seq<char>>)
    requires
        srcs.len() >= 1,
        forall|i: int| 0 <= i < srcs.len() ==> storable(#[trigger] srcs[i]),
    ensures
        forall|k: int|
            0 <= k < file_lines(srcs).len() ==> !(#[trigger] file_lines(srcs)[k].len() > 0
                && file_lines(srcs)[k].last() == '\r'),
    decreases srcs.len(),
{
    if srcs.len() == 1 {
        lemma_storable_pieces(srcs[0]);
    } else {
        let pre = srcs.drop_last();
        assert forall|i: int| 0 <= i < pre.len() implies storable(#[trigger] pre[i]) by {
            assert(pre[i] == srcs[i]);
        }
        lemma_file_lines_no_cr(pre);
        assert(storable(srcs[srcs.len() - 1]));
        lemma_storable_pieces(srcs.last());
        let a = file_lines(pre);
        let b = raw_lines(srcs.last());
        assert forall|k: int| 0 <= k < file_lines(srcs).len() implies !(
        #[trigger] file_lines(srcs)[k].len() > 0 && file_lines(srcs)[k].last() == '\r') by {
            if k < a.len() {
                assert(file_lines(srcs)[k] == a[k]);
            } else if k == a.len() {
                assert(file_lines(srcs)[k] == seq!['%', '%']);
            } else {
                assert(file_lines(srcs)[k] == b[k - a.len() - 1]);
            }
        }
    }
}

/// Grouping the file's lines gives back each source with its newline.
proof fn lemma_file_group(srcs: Seq<Seq<char>>)
    requires
        srcs.len() >= 1,
        forall|i: int| 0 <= i < srcs.len() ==> storable(#[trigger] srcs[i]),
    ensures
        group_lines(file_lines(srcs)) == srcs.map_values(|s: Seq<char>| s.push('\n')),
    decreases srcs.len(),
{
    let e = Seq::<Seq<char>>::empty();
    if srcs.len() == 1 {
        let s0 = srcs[0];
        lemma_storable_pieces(s0);
        lemma_group_lines_append(e, raw_lines(s0));
        assert(e + raw_lines(s0) =~= raw_lines(s0));
        lemma_joined_raw_lines(s0);
        assert(group_lines(e) == seq![Seq::<char>::empty()]);
        assert(Seq::<char>::empty() + s0.push('\n') =~= s0.push('\n'));
        assert(group_lines(file_lines(srcs)) =~= srcs.map_values(|s: Seq<char>| s.push('\n')));
    } else {
        let pre = srcs.drop_last();
        let sn = srcs.last();
        assert forall|i: int| 0 <= i < pre.len() implies storable(#[trigger] pre[i]) by {
            assert(pre[i] == srcs[i]);
        }
        assert(storable(srcs[srcs.len() - 1]));
        lemma_file_group(pre);
        lemma_storable_pieces(sn);
        lemma_delimiter_piece();
        let a = file_lines(pre) + seq![seq!['%', '%']];
        assert(a.drop_last() =~= file_lines(pre));
        assert(a.last() == seq!['%', '%']);
        assert(group_lines(a) == group_lines(file_lines(pre)).push(Seq::<char>::empty()));
        lemma_group_lines_append(a, raw_lines(sn));
        lemma_joined_raw_lines(sn);
        assert(Seq::<char>::empty() + sn.push('\n') =~= sn.push('\n'));
        assert(group_lines(file_lines(srcs)) =~= srcs.map_values(|s: Seq<char>| s.push('\n')));
    }
}

/// Reading back the file written for a notebook gives its blocks'
/// sources again: for sources the format can carry (see [`storable`]),
/// and except for a lone block of nothing but whitespace, which reads
/// back as no block at all.
pub proof fn lemma_render_then_parse(srcs: Seq<Seq<char>>)
    requires
        forall|i: int| 0 <= i < srcs.len() ==> storable(#[trigger] srcs[i]),
        srcs.len() == 1 ==> !all_white(srcs[0]),
    ensures
        parse_sources_spec(render_spec(srcs)) == srcs,
{
    let t = render_spec(srcs);
    if srcs.len() == 0 {
        assert(all_white(t));
        assert(parse_sources_spec(t) =~= srcs);
    } else {
        if srcs.len() == 1 {
            let j = choose|j: int| 0 <= j < srcs[0].len() && !is_white(#[trigger] srcs[0][j]);
            assert(t[j] == srcs[0][j]);
        } else {
            let r = render_spec(srcs.drop_last());
            assert(t[r.len() as int] == '%');
        }
        assert(!all_white(t));
        lemma_file_raw(srcs);
        lemma_file_lines_no_cr(srcs);
        let f = file_lines(srcs);
        assert(text_lines(t) =~= f) by {
            let raw = raw_lines(t);
            assert(raw.last().len() == 0);
            assert forall|i: int| 0 <= i < f.len() implies #[trigger] text_lines(t)[i] == f[i] by {
                assert(raw[i] == f[i]);
            }
        }
        lemma_file_group(srcs);
        let g = srcs.map_values(|s: Seq<char>| s.push('\n'));
        assert(g.map_values(|b: Seq<char>| strip_nl(b)) =~= srcs) by {
            assert forall|i: int| 0 <= i < srcs.len() implies #[trigger] strip_nl(g[i]) == srcs[i] by {
                assert(srcs[i].push('\n').drop_last() =~= srcs[i]);
            }
        }
    }
}

} // verus!
