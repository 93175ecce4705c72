//! Rebuilding one file's own text, with its own line numbers, from
//! preprocessor output interleaved with line markers (`# 12 "file.c" 2`).
use vstd::prelude::*;
use crate::text::{chars_of, lines_of, split_lines};

verus! {

pub open spec fn is_digit(c: char) -> bool {
    '0' <= c && c <= '9'
}

/// The value of a decimal digit.
pub open spec fn digit_value(c: char) -> nat {
    if c == '1' { 1 }
    else if c == '2' { 2 }
    else if c == '3' { 3 }
    else if c == '4' { 4 }
    else if c == '5' { 5 }
    else if c == '6' { 6 }
    else if c == '7' { 7 }
    else if c == '8' { 8 }
    else if c == '9' { 9 }
    else { 0 }
}

/// The first index at or after `i` that does not hold a digit.
pub open spec fn digits_end(l: Seq<char>, i: int) -> int
    decreases l.len() - i,
{
    if 0 <= i < l.len() && is_digit(l[i]) {
        digits_end(l, i + 1)
    } else {
        i
    }
}

/// The number written by the digits `l[i..j]`.
pub open spec fn digits_value(l: Seq<char>, i: int, j: int) -> nat
    decreases j - i,
{
    if j <= i {
        0
    } else {
        digits_value(l, i, j - 1) * 10 + digit_value(l[j - 1])
    }
}

/// The first index at or after `i` that holds `"`, or the length.
pub open spec fn quote_end(l: Seq<char>, i: int) -> int
    decreases l.len() - i,
{
    if 0 <= i < l.len() && l[i] != '"' {
        quote_end(l, i + 1)
    } else {
        i
    }
}

/// What a line of preprocessor output is.
pub enum LineKind {
    /// `# <line> "<path>"`, optionally followed by a space and flags: the text
    /// after it is line `line` of file `path`.
    Marker { line: nat, path: Seq<char> },
    /// Starts like a marker (`# ` and a digit) but is not one; it is skipped.
    Malformed,
    /// Source text.
    Text,
}

pub open spec fn line_kind(l: Seq<char>) -> LineKind {
    if l.len() >= 3 && l[0] == '#' && l[1] == ' ' && is_digit(l[2]) {
        let j = digits_end(l, 2);
        let v = digits_value(l, 2, j);
        if j + 1 < l.len() && l[j] == ' ' && l[j + 1] == '"' {
            let q = quote_end(l, j + 2);
            if q < l.len() && (q + 1 == l.len() || l[q + 1] == ' ') && v <= usize::MAX {
                LineKind::Marker { line: v, path: l.subrange(j + 2, q) }
            } else {
                LineKind::Malformed
            }
        } else {
            LineKind::Malformed
        }
    } else {
        LineKind::Text
    }
}

/// Rebuilding state: whether the current segment is kept, the line count
/// to pad to before its next text line, and the lines rebuilt so far.
pub struct RealignState {
    pub keep: bool,
    pub pad_to: nat,
    pub out: Seq<Seq<char>>,
}

/// `out` with empty lines added until it holds `k` lines.
pub open spec fn pad(out: Seq<Seq<char>>, k: nat) -> Seq<Seq<char>>
    decreases k - out.len(),
{
    if out.len() >= k {
        out
    } else {
        pad(out.push(Seq::<char>::empty()), k)
    }
}

pub open spec fn realign_step(st: RealignState, l: Seq<char>, name: Seq<char>) -> RealignState {
    match line_kind(l) {
        LineKind::Marker { line, path } => RealignState {
            keep: path == name,
            pad_to: if line > 0 { (line - 1) as nat } else { 0 },
            out: st.out,
        },
        LineKind::Malformed => st,
        LineKind::Text => if st.keep {
            RealignState { keep: true, pad_to: 0, out: pad(st.out, st.pad_to).push(l) }
        } else {
            st
        },
    }
}

/// The state after reading `lines` from state `st`.
pub open spec fn realign_from(st: RealignState, lines: Seq<Seq<char>>, name: Seq<char>) -> RealignState
    decreases lines.len(),
{
    if lines.len() == 0 {
        st
    } else {
        realign_step(realign_from(st, lines.drop_last(), name), lines.last(), name)
    }
}

/// The state after reading `lines`; only segments whose marker names the
/// file are kept, so text before the first marker is dropped.
pub open spec fn realign_state(lines: Seq<Seq<char>>, name: Seq<char>) -> RealignState {
    realign_from(RealignState { keep: false, pad_to: 0, out: Seq::empty() }, lines, name)
}

/// Lines joined, each followed by a newline.
pub open spec fn join_lines(ls: Seq<Seq<char>>) -> Seq<char>
    decreases ls.len(),
{
    if ls.len() == 0 {
        Seq::empty()
    } else {
        join_lines(ls.drop_last()) + ls.last() + seq!['\n']
    }
}

/// The text of file `name` rebuilt from preprocessor output `raw`: only the
/// segments that markers attribute to `name`, each placed at the line its
/// marker gives, with empty lines before it where needed.
pub open spec fn virtual_text(raw: Seq<char>, name: Seq<char>) -> Seq<char> {
    join_lines(realign_state(lines_of(raw), name).out)
}

/// A line of preprocessor output, as read.
pub enum ParsedLine {
    Marker { line: usize, keep: bool },
    Malformed,
    Text,
}

proof fn lemma_digits_mono(l: Seq<char>, i: int, j: int, k: int)
    requires
        j <= k,
    ensures
        digits_value(l, i, j) <= digits_value(l, i, k),
    decreases k - j,
{
    if j < k {
        lemma_digits_mono(l, i, j, k - 1);
    }
}

fn digit_of(c: char) -> (r: usize)
    ensures
        r as nat == digit_value(c),
        r < 10,
{
    if c == '1' { 1 }
    else if c == '2' { 2 }
    else if c == '3' { 3 }
    else if c == '4' { 4 }
    else if c == '5' { 5 }
    else if c == '6' { 6 }
    else if c == '7' { 7 }
    else if c == '8' { 8 }
    else if c == '9' { 9 }
    else { 0 }
}

/// Whether `l[from..to]` holds exactly `name`.
fn run_equals(l: &Vec<char>, from: usize, to: usize, name: &Vec<char>) -> (r: bool)
    requires
        from <= to <= l@.len(),
    ensures
        r == (l@.subrange(from as int, to as int) == name@),
{
    if to - from != name.len() {
        assert(l@.subrange(from as int, to as int).len() != name@.len());
        return false;
    }
    let mut k: usize = 0;
    while k < name.len()
        invariant
            from <= to <= l@.len(),
            to - from == name@.len(),
            k <= name@.len(),
            forall|m: int| 0 <= m < k ==> l@[from + m] == name@[m],
        decreases name@.len() - k,
    {
        if l[from + k] != name[k] {
            assert(l@.subrange(from as int, to as int)[k as int] != name@[k as int]);
            return false;
        }
        k = k + 1;
    }
    assert(l@.subrange(from as int, to as int) =~= name@);
    true
}

/// Classifies one line of preprocessor output; a marker also tells whether
/// it names `name`.
pub fn parse_line(l: &Vec<char>, name: &Vec<char>) -> (r: ParsedLine)
    ensures
        match line_kind(l@) {
            LineKind::Marker { line, path } => r == (ParsedLine::Marker { line: line as usize, keep: path == name@ }),
            LineKind::Malformed => r is Malformed,
            LineKind::Text => r is Text,
        },
{
    let len = l.len();
    if !(len >= 3 && l[0] == '#' && l[1] == ' ' && '0' <= l[2] && l[2] <= '9') {
        return ParsedLine::Text;
    }
    let mut j: usize = 2;
    let mut v: usize = 0;
    let mut too_big = false;
    while j < len && '0' <= l[j] && l[j] <= '9'
        invariant
            2 <= j <= len,
            len == l@.len(),
            digits_end(l@, 2) == digits_end(l@, j as int),
            too_big ==> digits_value(l@, 2, j as int) > usize::MAX,
            !too_big ==> v as nat == digits_value(l@, 2, j as int),
        decreases len - j,
    {
        let d = digit_of(l[j]);
        proof {
            lemma_digits_mono(l@, 2, j as int, j + 1);
        }
        if !too_big {
            if v <= (usize::MAX - d) / 10 {
                v = v * 10 + d;
            } else {
                too_big = true;
            }
        }
        j = j + 1;
    }
    assert(digits_end(l@, j as int) == j);
    if !(j < len && j + 1 < len && l[j] == ' ' && l[j + 1] == '"') {
        return ParsedLine::Malformed;
    }
    let mut q: usize = j + 2;
    while q < len && l[q] != '"'
        invariant
            j + 2 <= q <= len,
            len == l@.len(),
            quote_end(l@, (j + 2) as int) == quote_end(l@, q as int),
        decreases len - q,
    {
        q = q + 1;
    }
    assert(quote_end(l@, q as int) == q);
    if q < len && (q + 1 == len || l[q + 1] == ' ') && !too_big {
        let keep = run_equals(l, j + 2, q, name);
        ParsedLine::Marker { line: v, keep }
    } else {
        ParsedLine::Malformed
    }
}

/// Lines joined, each followed by a newline.
fn join_all(ls: &Vec<String>) -> (r: String)
    ensures
        r@ == join_lines(ls@.map_values(|s: String| s@)),
{
    let ghost views = ls@.map_values(|s: String| s@);
    let mut text = String::new();
    let mut i: usize = 0;
    while i < ls.len()
        invariant
            i <= ls@.len(),
            views == ls@.map_values(|s: String| s@),
            text@ == join_lines(views.take(i as int)),
        decreases ls@.len() - i,
    {
        let ghost before = text@;
        text.append(ls[i].as_str());
        text.append("\n");
        proof {
            reveal_strlit("\n");
            assert("\n"@ =~= seq!['\n']);
            assert(views.take(i + 1).drop_last() =~= views.take(i as int));
            assert(views.take(i + 1).last() == ls@[i as int]@);
            assert(text@ =~= before + ls@[i as int]@ + seq!['\n']);
        }
        i = i + 1;
    }
    assert(views.take(i as int) =~= views);
    text
}

/// Rebuilds the text of file `name` from preprocessor output `raw` (see
/// `virtual_text`). Output without any segment of `name` gives the empty text.
pub fn realign(raw: &str, name: &str) -> (r: String)
    ensures
        r@ == virtual_text(raw@, name@),
{
    let lines = split_lines(raw);
    let ghost lv = lines_of(raw@);
    let name_chars = chars_of(name);
    let mut out: Vec<String> = Vec::new();
    let mut keep = false;
    let mut pad_to: usize = 0;
    let mut i: usize = 0;
    while i < lines.len()
        invariant
            i <= lines@.len(),
            lines@.len() == lv.len(),
            forall|k: int| 0 <= k < lines@.len() ==> #[trigger] lines@[k]@ == lv[k],
            name_chars@ == name@,
            realign_state(lv.take(i as int), name@).keep == keep,
            realign_state(lv.take(i as int), name@).pad_to == pad_to as nat,
            realign_state(lv.take(i as int), name@).out == out@.map_values(|s: String| s@),
        decreases lines@.len() - i,
    {
        proof {
            assert(lv.take(i + 1).drop_last() =~= lv.take(i as int));
            assert(lv.take(i + 1).last() == lv[i as int]);
        }
        let lc = chars_of(lines[i].as_str());
        match parse_line(&lc, &name_chars) {
            ParsedLine::Marker { line, keep: k } => {
                keep = k;
                pad_to = if line > 0 { line - 1 } else { 0 };
            },
            ParsedLine::Malformed => {},
            ParsedLine::Text => {
                if keep {
                    let ghost target = pad(out@.map_values(|s: String| s@), pad_to as nat);
                    while out.len() < pad_to
                        invariant
                            pad(out@.map_values(|s: String| s@), pad_to as nat) == target,
                        decreases pad_to - out@.len(),
                    {
                        let ghost before = out@.map_values(|s: String| s@);
                        out.push(String::new());
                        proof {
                            assert(out@.map_values(|s: String| s@) =~= before.push(Seq::<char>::empty()));
                        }
                    }
                    let ghost padded = out@.map_values(|s: String| s@);
                    out.push(lines[i].clone());
                    proof {
                        assert(out@.map_values(|s: String| s@) =~= padded.push(lv[i as int]));
                    }
                    pad_to = 0;
                }
            },
        }
        i = i + 1;
    }
    proof {
        assert(lv.take(i as int) =~= lv);
    }
    join_all(&out)
}

/// Whether the line at index `k` of `lines` lies in a segment of `name`:
/// there is a marker before it, and the nearest one names `name`.
pub open spec fn segment_kept(lines: Seq<Seq<char>>, k: int, name: Seq<char>) -> bool
    decreases k,
{
    if k <= 0 {
        false
    } else {
        match line_kind(lines[k - 1]) {
            LineKind::Marker { line, path } => path == name,
            _ => segment_kept(lines, k - 1, name),
        }
    }
}

proof fn lemma_realign_concat(st: RealignState, a: Seq<Seq<char>>, b: Seq<Seq<char>>, name: Seq<char>)
    ensures
        realign_from(st, a + b, name) == realign_from(realign_from(st, a, name), b, name),
    decreases b.len(),
{
    if b.len() == 0 {
        assert(a + b =~= a);
    } else {
        lemma_realign_concat(st, a, b.drop_last(), name);
        assert((a + b).drop_last() =~= a + b.drop_last());
        assert((a + b).last() == b.last());
    }
}

proof fn lemma_nothing_kept(lines: Seq<Seq<char>>, name: Seq<char>, k: int)
    requires
        0 <= k <= lines.len(),
        forall|i: int| 0 <= i < lines.len() && line_kind(lines[i]) is Text ==> !segment_kept(lines, i, name),
    ensures
        realign_state(lines.take(k), name).out == Seq::<Seq<char>>::empty(),
        realign_state(lines.take(k), name).keep == segment_kept(lines, k, name),
    decreases k,
{
    if k > 0 {
        lemma_nothing_kept(lines, name, k - 1);
        assert(lines.take(k).drop_last() =~= lines.take(k - 1));
        assert(lines.take(k).last() == lines[k - 1]);
    }
}

/// Output in which every text line lies in a segment of some other file
/// (the target's own markers followed by no text of it) rebuilds to the empty text.
pub proof fn lemma_no_own_lines(raw: Seq<char>, name: Seq<char>)
    requires
        forall|i: int|
            0 <= i < lines_of(raw).len() && line_kind(lines_of(raw)[i]) is Text
                ==> !segment_kept(lines_of(raw), i, name),
    ensures
        virtual_text(raw, name) == Seq::<char>::empty(),
{
    let lines = lines_of(raw);
    lemma_nothing_kept(lines, name, lines.len() as int);
    assert(lines.take(lines.len() as int) =~= lines);
}

proof fn lemma_text_lines_kept(o: Seq<Seq<char>>, ls: Seq<Seq<char>>, name: Seq<char>)
    requires
        forall|i: int| 0 <= i < ls.len() ==> line_kind(#[trigger] ls[i]) is Text,
    ensures
        realign_from(RealignState { keep: true, pad_to: 0, out: o }, ls, name)
            == (RealignState { keep: true, pad_to: 0, out: o + ls }),
    decreases ls.len(),
{
    if ls.len() == 0 {
        assert(o + ls =~= o);
    } else {
        lemma_text_lines_kept(o, ls.drop_last(), name);
        assert(line_kind(ls[ls.len() - 1]) is Text);
        assert(pad(o + ls.drop_last(), 0) == o + ls.drop_last());
        assert((o + ls.drop_last()).push(ls.last()) =~= o + ls);
    }
}

/// Output made of a prologue that keeps no text, a marker placing what
/// follows at line 1 of `name`, and the lines of a file none of which looks
/// like a marker, rebuilds to exactly those lines.
pub proof fn lemma_round_trip(
    raw: Seq<char>,
    name: Seq<char>,
    prologue: Seq<Seq<char>>,
    marker: Seq<char>,
    file_lines: Seq<Seq<char>>,
)
    requires
        lines_of(raw) == prologue.push(marker) + file_lines,
        forall|i: int|
            0 <= i < prologue.len() && line_kind(prologue[i]) is Text ==> !segment_kept(prologue, i, name),
        line_kind(marker) == (LineKind::Marker { line: 1, path: name }),
        forall|i: int| 0 <= i < file_lines.len() ==> line_kind(#[trigger] file_lines[i]) is Text,
    ensures
        realign_state(lines_of(raw), name).out == file_lines,
        virtual_text(raw, name) == join_lines(file_lines),
{
    let init = RealignState { keep: false, pad_to: 0, out: Seq::empty() };
    lemma_nothing_kept(prologue, name, prologue.len() as int);
    assert(prologue.take(prologue.len() as int) =~= prologue);
    lemma_realign_concat(init, prologue, seq![marker], name);
    assert(prologue + seq![marker] =~= prologue.push(marker));
    assert(seq![marker].drop_last() =~= Seq::<Seq<char>>::empty());
    let sp = realign_from(init, prologue, name);
    assert(sp.out == Seq::<Seq<char>>::empty());
    assert(seq![marker].last() == marker);
    assert(realign_from(sp, seq![marker], name) == realign_step(realign_from(sp, Seq::<Seq<char>>::empty(), name), marker, name));
    let after = realign_from(init, prologue.push(marker), name);
    assert(after == (RealignState { keep: true, pad_to: 0, out: Seq::empty() }));
    lemma_realign_concat(init, prologue.push(marker), file_lines, name);
    lemma_text_lines_kept(Seq::empty(), file_lines, name);
    assert(Seq::<Seq<char>>::empty() + file_lines =~= file_lines);
}

} // verus!
