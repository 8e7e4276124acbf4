//! Mermaid fences inside Markdown: finding the diagrams, and replacing each
//! fence by what a renderer makes of it.
use vstd::prelude::*;
use crate::renderer::put;
use crate::text::{
    chars_eq, from_chars, join, join_exec, lines_exec, lines_of, starts_with, starts_with_exec,
    to_chars, trim, trim_chars, trim_end, trim_end_chars, views,
};

verus! {

/// A piece of a Markdown document: a diagram or plain text.
pub struct ExtractedBlock {
    pub content: String,
    pub is_mermaid: bool,
}

// ---------------------------------------------------------------------------
// The fence scanner
// ---------------------------------------------------------------------------

/// Whether a line opens a mermaid fence: after trimming, it starts with
/// three backticks and `mermaid`.
pub open spec fn opens_fence(line: Seq<char>) -> bool {
    starts_with(trim(line), "```mermaid"@)
}

/// Whether a line closes a fence: after trimming, it is three backticks.
pub open spec fn closes_fence(line: Seq<char>) -> bool {
    trim(line) == "```"@
}

/// Where the scan of a document stands after some lines: inside a fence or
/// not, the lines of the fence read so far, and the code of every fence
/// closed so far.
pub struct Fences {
    pub open: bool,
    pub current: Seq<Seq<char>>,
    pub codes: Seq<Seq<char>>,
}

/// The scan after the given lines. An opening line starts a fence afresh,
/// also inside one; a closing line inside a fence ends it and records its
/// lines joined by newlines; a fence left open records nothing.
pub open spec fn fences(lines: Seq<Seq<char>>) -> Fences
    decreases lines.len(),
{
    if lines.len() == 0 {
        Fences { open: false, current: seq![], codes: seq![] }
    } else {
        let st = fences(lines.drop_last());
        let l = lines.last();
        if opens_fence(l) {
            Fences { open: true, current: seq![], codes: st.codes }
        } else if st.open && closes_fence(l) {
            Fences { open: false, current: seq![], codes: st.codes.push(join(st.current, "\n"@)) }
        } else if st.open {
            Fences { open: true, current: st.current.push(l), codes: st.codes }
        } else {
            st
        }
    }
}

/// The code of every closed mermaid fence of a document, in order.
pub open spec fn block_codes(md: Seq<char>) -> Seq<Seq<char>> {
    fences(lines_of(md)).codes
}

/// The codes that are not blank.
pub open spec fn non_blank(codes: Seq<Seq<char>>) -> Seq<Seq<char>>
    decreases codes.len(),
{
    if codes.len() == 0 {
        seq![]
    } else if trim(codes.last()).len() > 0 {
        non_blank(codes.drop_last()).push(codes.last())
    } else {
        non_blank(codes.drop_last())
    }
}

/// The diagrams of a document: the closed mermaid fences that are not blank.
pub open spec fn mermaid_blocks(md: Seq<char>) -> Seq<Seq<char>> {
    non_blank(block_codes(md))
}

/// The lines that stand for a closed fence once its code was rendered: the
/// rendering in a `text` fence, or on failure a comment with the error and
/// the fence as it was.
pub open spec fn fence_replacement(code: Seq<char>, r: Result<Seq<char>, Seq<char>>) -> Seq<Seq<char>> {
    match r {
        Ok(text) => seq!["```text"@, trim_end(text), "```"@],
        Err(e) => seq!["<!-- Mermaid render error: "@ + e + " -->"@, "```mermaid"@, code, "```"@],
    }
}

/// The output lines for the given input lines, the `k`-th closed fence
/// rendered as `rs[k]`: lines outside fences are kept, lines of fences
/// dropped, and each closed fence replaced.
pub open spec fn transform_lines(lines: Seq<Seq<char>>, rs: Seq<Result<Seq<char>, Seq<char>>>) -> Seq<
    Seq<char>,
>
    decreases lines.len(),
{
    if lines.len() == 0 {
        seq![]
    } else {
        let prev = lines.drop_last();
        let out = transform_lines(prev, rs);
        let st = fences(prev);
        let l = lines.last();
        if opens_fence(l) {
            out
        } else if st.open && closes_fence(l) {
            out + fence_replacement(join(st.current, "\n"@), rs[st.codes.len() as int])
        } else if st.open {
            out
        } else {
            out.push(l)
        }
    }
}

/// The document with every closed mermaid fence replaced, the `k`-th as
/// `rs[k]` says; lines joined by newlines.
pub open spec fn transform_text(md: Seq<char>, rs: Seq<Result<Seq<char>, Seq<char>>>) -> Seq<char> {
    join(transform_lines(lines_of(md), rs), "\n"@)
}

pub open spec fn result_view(r: Result<String, String>) -> Result<Seq<char>, Seq<char>> {
    match r {
        Ok(s) => Ok(s@),
        Err(e) => Err(e@),
    }
}

pub open spec fn results_view(rs: Seq<Result<String, String>>) -> Seq<Result<Seq<char>, Seq<char>>> {
    rs.map_values(|r: Result<String, String>| result_view(r))
}

// ---------------------------------------------------------------------------
// Executable scanner
// ---------------------------------------------------------------------------

fn opens_fence_exec(line: &Vec<char>) -> (b: bool)
    ensures
        b == opens_fence(line@),
{
    let t = trim_chars(line);
    let p = to_chars("```mermaid");
    starts_with_exec(&t, &p)
}

fn closes_fence_exec(line: &Vec<char>) -> (b: bool)
    ensures
        b == closes_fence(line@),
{
    let t = trim_chars(line);
    let p = to_chars("```");
    chars_eq(&t, &p)
}

fn copy_chars(v: &Vec<char>) -> (r: Vec<char>)
    ensures
        r@ == v@,
{
    let mut r: Vec<char> = Vec::new();
    let mut i: usize = 0;
    while i < v.len()
        invariant
            i <= v.len(),
            r@ == v@.take(i as int),
        decreases v.len() - i,
    {
        r.push(v[i]);
        i = i + 1;
        assert(r@ =~= v@.take(i as int));
    }
    assert(v@.take(v.len() as int) =~= v@);
    r
}

/// The scan over the lines of a document, one step: the state after line
/// `lines[i]` from the state before it.
fn fence_step(
    lines: &Vec<Vec<char>>,
    i: usize,
    open: &mut bool,
    current: &mut Vec<Vec<char>>,
    codes: &mut Vec<Vec<char>>,
)
    requires
        i < lines.len(),
        *old(open) == fences(views(lines@).take(i as int)).open,
        views(old(current)@) == fences(views(lines@).take(i as int)).current,
        views(old(codes)@) == fences(views(lines@).take(i as int)).codes,
    ensures
        *final(open) == fences(views(lines@).take(i + 1)).open,
        views(final(current)@) == fences(views(lines@).take(i + 1)).current,
        views(final(codes)@) == fences(views(lines@).take(i + 1)).codes,
{
    let ghost ls = views(lines@);
    proof {
        assert(ls.take(i + 1).drop_last() =~= ls.take(i as int));
        assert(ls.take(i + 1).last() == lines@[i as int]@);
    }
    let line = &lines[i];
    if opens_fence_exec(line) {
        *open = true;
        *current = Vec::new();
        proof {
            assert(views(current@) =~= seq![]);
        }
    } else if *open && closes_fence_exec(line) {
        let nl = to_chars("\n");
        let code = join_exec(current, &nl);
        proof {
            lemma_views_push_chars(codes@, code);
        }
        codes.push(code);
        *open = false;
        *current = Vec::new();
        proof {
            assert(views(current@) =~= seq![]);
        }
    } else if *open {
        let l = copy_chars(line);
        proof {
            lemma_views_push_chars(current@, l);
        }
        current.push(l);
    }
}

proof fn lemma_views_push_chars(v: Seq<Vec<char>>, x: Vec<char>)
    ensures
        views(v.push(x)) == views(v).push(x@),
{
    assert(views(v.push(x)) =~= views(v).push(x@));
}

/// The code of every closed mermaid fence of a document, in order: what a
/// renderer is handed.
pub fn mermaid_block_codes(markdown: &str) -> (codes: Vec<String>)
    ensures
        codes@.map_values(|c: String| c@) == block_codes(markdown@),
{
    let cs = to_chars(markdown);
    let lines = lines_exec(&cs);
    let ghost ls = views(lines@);
    let mut open = false;
    let mut current: Vec<Vec<char>> = Vec::new();
    let mut raw: Vec<Vec<char>> = Vec::new();
    let mut i: usize = 0;
    proof {
        assert(ls.take(0) =~= seq![]);
        assert(views(current@) =~= seq![]);
        assert(views(raw@) =~= seq![]);
    }
    while i < lines.len()
        invariant
            i <= lines.len(),
            ls == views(lines@),
            open == fences(ls.take(i as int)).open,
            views(current@) == fences(ls.take(i as int)).current,
            views(raw@) == fences(ls.take(i as int)).codes,
        decreases lines.len() - i,
    {
        fence_step(&lines, i, &mut open, &mut current, &mut raw);
        i = i + 1;
    }
    proof {
        assert(ls.take(lines.len() as int) =~= ls);
    }
    let mut codes: Vec<String> = Vec::new();
    let mut k: usize = 0;
    while k < raw.len()
        invariant
            k <= raw.len(),
            codes@.map_values(|c: String| c@) == views(raw@).take(k as int),
        decreases raw.len() - k,
    {
        let c = from_chars(&raw[k]);
        let ghost before = codes@;
        codes.push(c);
        proof {
            assert(codes@ == before.push(c));
            assert(c@ == views(raw@)[k as int]);
            assert(codes@.map_values(|c: String| c@) =~= before.map_values(|c: String| c@).push(c@));
            assert(views(raw@).take(k + 1) =~= views(raw@).take(k as int).push(views(raw@)[k as int]));
        }
        k = k + 1;
    }
    assert(views(raw@).take(raw.len() as int) =~= views(raw@));
    codes
}

/// Extracts the mermaid diagrams of a Markdown document: the code of every
/// closed ```` ```mermaid ```` fence that is not blank, in order.
pub fn extract_mermaid_blocks(markdown: &str) -> (blocks: Vec<String>)
    ensures
        blocks@.map_values(|c: String| c@) == mermaid_blocks(markdown@),
{
    let codes = mermaid_block_codes(markdown);
    let ghost cv = codes@.map_values(|c: String| c@);
    let mut blocks: Vec<String> = Vec::new();
    let mut k: usize = 0;
    while k < codes.len()
        invariant
            k <= codes.len(),
            cv == codes@.map_values(|c: String| c@),
            blocks@.map_values(|c: String| c@) == non_blank(cv.take(k as int)),
        decreases codes.len() - k,
    {
        proof {
            assert(cv.take(k + 1).drop_last() =~= cv.take(k as int));
            assert(cv.take(k + 1).last() == codes@[k as int]@);
        }
        let t = trim_chars(&to_chars(codes[k].as_str()));
        if t.len() > 0 {
            blocks.push(codes[k].clone());
            assert(blocks@.map_values(|c: String| c@) =~= non_blank(cv.take(k as int)).push(codes@[k as int]@));
        }
        k = k + 1;
    }
    assert(cv.take(codes.len() as int) =~= cv);
    blocks
}

/// The lines that replace a closed fence, built.
fn fence_replacement_exec(code: &Vec<char>, r: &Result<String, String>) -> (lines: Vec<Vec<char>>)
    ensures
        views(lines@) == fence_replacement(code@, result_view(*r)),
{
    let mut lines: Vec<Vec<char>> = Vec::new();
    match r {
        Ok(text) => {
            lines.push(to_chars("```text"));
            lines.push(trim_end_chars(&to_chars(text.as_str())));
            lines.push(to_chars("```"));
        },
        Err(e) => {
            let mut c = String::new();
            put(&mut c, "<!-- Mermaid render error: ");
            put(&mut c, e.as_str());
            put(&mut c, " -->");
            lines.push(to_chars(c.as_str()));
            lines.push(to_chars("```mermaid"));
            lines.push(copy_chars(code));
            lines.push(to_chars("```"));
        },
    }
    assert(views(lines@) =~= fence_replacement(code@, result_view(*r)));
    lines
}

/// The document with its closed mermaid fences replaced, the `k`-th by what
/// `results[k]` holds: a rendering (kept in a `text` fence, trailing
/// whitespace trimmed) or an error (written in a comment above the fence,
/// which is kept). Lines outside fences are kept; the lines of a fence left
/// open are dropped.
pub fn assemble_markdown(markdown: &str, results: &Vec<Result<String, String>>) -> (out: String)
    requires
        results@.len() >= block_codes(markdown@).len(),
    ensures
        out@ == transform_text(markdown@, results_view(results@)),
{
    let cs = to_chars(markdown);
    let lines = lines_exec(&cs);
    let ghost ls = views(lines@);
    let ghost rs = results_view(results@);
    let mut open = false;
    let mut current: Vec<Vec<char>> = Vec::new();
    let mut codes: Vec<Vec<char>> = Vec::new();
    let mut out: Vec<Vec<char>> = Vec::new();
    let mut i: usize = 0;
    proof {
        assert(ls.take(0) =~= seq![]);
        assert(views(current@) =~= seq![]);
        assert(views(codes@) =~= seq![]);
        assert(views(out@) =~= seq![]);
        lemma_codes_prefix(ls, lines.len() as int);
    }
    while i < lines.len()
        invariant
            i <= lines.len(),
            ls == views(lines@),
            ls == lines_of(cs@),
            cs@ == markdown@,
            rs == results_view(results@),
            results@.len() >= fences(ls).codes.len(),
            open == fences(ls.take(i as int)).open,
            views(current@) == fences(ls.take(i as int)).current,
            views(codes@) == fences(ls.take(i as int)).codes,
            views(out@) == transform_lines(ls.take(i as int), rs),
        decreases lines.len() - i,
    {
        proof {
            assert(ls.take(i + 1).drop_last() =~= ls.take(i as int));
            assert(ls.take(i + 1).last() == lines@[i as int]@);
        }
        let line = &lines[i];
        if !opens_fence_exec(line) {
            if open && closes_fence_exec(line) {
                proof {
                    lemma_codes_prefix(ls, ls.len() as int);
                    assert(ls.take(ls.len() as int) =~= ls);
                    assert(fences(ls.take(i + 1)).codes.len() == codes.len() + 1);
                    assert(fences(ls.take(i + 1)).codes.len() <= fences(ls.take(ls.len() as int)).codes.len());
                }
                let nl = to_chars("\n");
                let code = join_exec(&current, &nl);
                let rep = fence_replacement_exec(&code, &results[codes.len()]);
                let ghost before = out@;
                let mut k: usize = 0;
                while k < rep.len()
                    invariant
                        k <= rep.len(),
                        views(out@) == views(before) + views(rep@).take(k as int),
                    decreases rep.len() - k,
                {
                    let l = copy_chars(&rep[k]);
                    proof {
                        lemma_views_push_chars(out@, l);
                        assert(views(rep@).take(k + 1) =~= views(rep@).take(k as int).push(l@));
                    }
                    out.push(l);
                    k = k + 1;
                    proof {
                        assert(views(out@) =~= views(before) + views(rep@).take(k as int));
                    }
                }
                proof {
                    assert(views(rep@).take(rep.len() as int) =~= views(rep@));
                    assert(rs[codes.len() as int] == result_view(results@[codes.len() as int]));
                }
            } else if !open {
                let l = copy_chars(line);
                proof {
                    lemma_views_push_chars(out@, l);
                }
                out.push(l);
            }
        }
        fence_step(&lines, i, &mut open, &mut current, &mut codes);
        i = i + 1;
    }
    proof {
        assert(ls.take(lines.len() as int) =~= ls);
    }
    let nl = to_chars("\n");
    from_chars(&join_exec(&out, &nl))
}

/// The closed fences seen in a prefix of the lines are no more than those of
/// all of them.
proof fn lemma_codes_prefix(ls: Seq<Seq<char>>, j: int)
    requires
        0 <= j <= ls.len(),
    ensures
        forall|i: int| 0 <= i <= j ==> #[trigger] fences(ls.take(i)).codes.len() <= fences(ls.take(j)).codes.len(),
    decreases j,
{
    if j > 0 {
        lemma_codes_prefix(ls, j - 1);
        assert(ls.take(j).drop_last() =~= ls.take(j - 1));
    }
}

/// Whether `r` is a result the renderer `f` may give for a code.
pub open spec fn renders<F: FnMut(&str) -> Result<String, String>>(
    f: F,
    code: Seq<char>,
    r: Result<String, String>,
) -> bool {
    exists|s: &str| s@ == code && call_ensures(f, (s,), r)
}

/// Replaces every closed ```` ```mermaid ```` fence of a Markdown document by
/// the rendering `renderer` makes of its code. The renderer is called once
/// per closed fence, in order, on the fence's lines joined by newlines; what
/// is made of each result is as `assemble_markdown` says.
pub fn transform_markdown<F>(markdown: &str, mut renderer: F) -> (out: String) where
    F: FnMut(&str) -> Result<String, String>,

    requires
        forall|s: &str| call_requires(renderer, (s,)),
    ensures
        exists|rs: Seq<Result<String, String>>|
            {
                &&& rs.len() == block_codes(markdown@).len()
                &&& forall|k: int|
                    0 <= k < rs.len() ==> #[trigger] renders(renderer, block_codes(markdown@)[k], rs[k])
                &&& out@ == transform_text(markdown@, results_view(rs))
            },
{
    let codes = mermaid_block_codes(markdown);
    let ghost cv = codes@.map_values(|c: String| c@);
    let ghost f0 = renderer;
    let mut results: Vec<Result<String, String>> = Vec::new();
    let mut k: usize = 0;
    while k < codes.len()
        invariant
            k <= codes.len(),
            cv == codes@.map_values(|c: String| c@),
            renderer == f0,
            results@.len() == k,
            forall|s: &str| call_requires(renderer, (s,)),
            forall|j: int| 0 <= j < k ==> #[trigger] renders(renderer, cv[j], results@[j]),
        decreases codes.len() - k,
    {
        let code = codes[k].as_str();
        let r = renderer(code);
        proof {
            assert(code@ == cv[k as int]);
            assert(renders(renderer, cv[k as int], r));
        }
        let ghost before = results@;
        results.push(r);
        proof {
            assert forall|j: int| 0 <= j < k + 1 implies #[trigger] renders(renderer, cv[j], results@[j]) by {
                if j < k {
                    assert(results@[j] == before[j]);
                }
            }
        }
        k = k + 1;
    }
    let out = assemble_markdown(markdown, &results);
    assert(results@.len() == block_codes(markdown@).len());
    out
}

// ---------------------------------------------------------------------------
// Laws
// ---------------------------------------------------------------------------

/// Every diagram extracted from a document holds more than whitespace.
pub proof fn lemma_blocks_not_blank(md: Seq<char>)
    ensures
        forall|k: int| 0 <= k < mermaid_blocks(md).len() ==> trim(#[trigger] mermaid_blocks(md)[k]).len() > 0,
{
    lemma_non_blank(block_codes(md));
}

proof fn lemma_non_blank(codes: Seq<Seq<char>>)
    ensures
        forall|k: int| 0 <= k < non_blank(codes).len() ==> trim(#[trigger] non_blank(codes)[k]).len() > 0,
    decreases codes.len(),
{
    if codes.len() > 0 {
        lemma_non_blank(codes.drop_last());
        let prev = non_blank(codes.drop_last());
        if trim(codes.last()).len() > 0 {
            assert forall|k: int| 0 <= k < non_blank(codes).len() implies trim(
                #[trigger] non_blank(codes)[k],
            ).len() > 0 by {
                if k < prev.len() {
                    assert(non_blank(codes)[k] == prev[k]);
                }
            }
        }
    }
}

proof fn lemma_no_fence_lines(lines: Seq<Seq<char>>, rs: Seq<Result<Seq<char>, Seq<char>>>)
    requires
        forall|k: int| 0 <= k < lines.len() ==> !opens_fence(#[trigger] lines[k]),
    ensures
        !fences(lines).open,
        fences(lines).codes.len() == 0,
        transform_lines(lines, rs) == lines,
    decreases lines.len(),
{
    if lines.len() > 0 {
        let prev = lines.drop_last();
        assert forall|k: int| 0 <= k < prev.len() implies !opens_fence(#[trigger] prev[k]) by {
            assert(prev[k] == lines[k]);
        }
        lemma_no_fence_lines(prev, rs);
        assert(!opens_fence(lines[lines.len() - 1]));
        assert(prev.push(lines.last()) =~= lines);
    }
}

/// A document with no line opening a mermaid fence hands the renderer
/// nothing, and comes out as its lines joined by newlines (whatever the
/// renderer would give).
pub proof fn lemma_no_fence_unchanged(md: Seq<char>, rs: Seq<Result<Seq<char>, Seq<char>>>)
    requires
        forall|k: int| 0 <= k < lines_of(md).len() ==> !opens_fence(#[trigger] lines_of(md)[k]),
    ensures
        block_codes(md).len() == 0,
        mermaid_blocks(md).len() == 0,
        transform_text(md, rs) == join(lines_of(md), "\n"@),
{
    lemma_no_fence_lines(lines_of(md), rs);
}

/// Whether a line, trimmed, is a fence line: an opening ```` ```mermaid ````
/// or a closing ```` ``` ````.
pub open spec fn trims_to_fence(l: Seq<char>) -> bool {
    starts_with(trim(l), "```mermaid"@) || trim(l) == "```"@
}

proof fn lemma_fence_prefix(o: Seq<char>, body: Seq<Seq<char>>, i: int)
    requires
        starts_with(trim(o), "```mermaid"@),
        0 <= i <= body.len(),
        forall|k: int| 0 <= k < body.len() ==> !trims_to_fence(#[trigger] body[k]),
    ensures
        fences(seq![o] + body.take(i)) == (Fences { open: true, current: body.take(i), codes: seq![] }),
    decreases i,
{
    let ls = seq![o] + body.take(i);
    if i == 0 {
        assert(ls.drop_last() =~= Seq::<Seq<char>>::empty());
        assert(ls.last() == o);
        assert(body.take(0) =~= Seq::<Seq<char>>::empty());
        assert(opens_fence(o));
        assert(fences(ls.drop_last()) == (Fences { open: false, current: seq![], codes: seq![] }));
        assert(fences(ls) == (Fences { open: true, current: seq![], codes: seq![] }));
    } else {
        lemma_fence_prefix(o, body, i - 1);
        let prev = seq![o] + body.take(i - 1);
        assert(ls.drop_last() =~= prev);
        assert(ls.last() == body[i - 1]);
        assert(!trims_to_fence(body[i - 1]));
        assert(!opens_fence(body[i - 1]) && !closes_fence(body[i - 1]));
        assert(body.take(i - 1).push(body[i - 1]) =~= body.take(i));
        assert(fences(ls) == (Fences { open: true, current: body.take(i - 1).push(body[i - 1]), codes: seq![] }));
    }
}

/// A mermaid fence is read after trimming its fence lines: lines opening
/// with ```` ```mermaid ```` and closing with ```` ``` ````, each with any
/// blanks around them, and between them lines that are no fence lines, give
/// one diagram, those lines joined by newlines.
pub proof fn lemma_fence_lines_trimmed(o: Seq<char>, body: Seq<Seq<char>>, c: Seq<char>)
    requires
        starts_with(trim(o), "```mermaid"@),
        trim(c) == "```"@,
        forall|k: int| 0 <= k < body.len() ==> !trims_to_fence(#[trigger] body[k]),
    ensures
        fences(seq![o] + body + seq![c]).codes == seq![join(body, "\n"@)],
        !fences(seq![o] + body + seq![c]).open,
{
    lemma_fence_prefix(o, body, body.len() as int);
    let ls = seq![o] + body + seq![c];
    assert(body.take(body.len() as int) =~= body);
    assert(ls.drop_last() =~= seq![o] + body.take(body.len() as int));
    assert(ls.last() == c);
    reveal_strlit("```mermaid");
    reveal_strlit("```");
    assert(!starts_with(trim(c), "```mermaid"@));
}

/// A document whose lines are such a fence holds that one diagram.
pub proof fn lemma_document_fence(md: Seq<char>, o: Seq<char>, body: Seq<Seq<char>>, c: Seq<char>)
    requires
        lines_of(md) == seq![o] + body + seq![c],
        starts_with(trim(o), "```mermaid"@),
        trim(c) == "```"@,
        forall|k: int| 0 <= k < body.len() ==> !trims_to_fence(#[trigger] body[k]),
    ensures
        block_codes(md) == seq![join(body, "\n"@)],
        trim(join(body, "\n"@)).len() > 0 ==> mermaid_blocks(md) == seq![join(body, "\n"@)],
{
    lemma_fence_lines_trimmed(o, body, c);
    let cs = block_codes(md);
    assert(cs.drop_last() =~= Seq::<Seq<char>>::empty());
    assert(cs.last() == join(body, "\n"@));
    assert(non_blank(cs.drop_last()) == Seq::<Seq<char>>::empty());
}

} // verus!
