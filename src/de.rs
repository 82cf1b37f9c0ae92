//! Decoding: the lines of a document, a cursor over them, and the engine
//! that groups runs of lines sharing a path prefix into nested scopes.
use vstd::prelude::*;

use crate::error::DeserializeError;
use crate::ser::render_line;
use crate::ser::line_text;
use crate::text::{
    all_digits, digits_value, find_char, first_index, is_digit, split_on, split_text,
    trim, trim_text,
};
use crate::value::{lines_view, path_view, Line, LineModel};

verus! {

/// The raw lines of a text: the pieces between newlines, less a last empty
/// piece after a final newline.
pub open spec fn raw_lines(s: Seq<char>) -> Seq<Seq<char>> {
    let p = split_on(s, '\n');
    if p.len() > 0 && p.last().len() == 0 {
        p.drop_last()
    } else {
        p
    }
}

/// A raw line read as a path and a value: trimmed, split at its first `=`,
/// the left side split at every `.`. `None` when there is no `=`.
pub open spec fn parse_line(t: Seq<char>) -> Option<LineModel> {
    let u = trim(t);
    let i = first_index(u, '=');
    if i >= u.len() {
        None
    } else {
        Some((split_on(u.take(i as int), '.'), u.skip(i + 1 as int)))
    }
}

/// The lines of a document, or the index of its first line without `=`.
pub open spec fn parse_all(raws: Seq<Seq<char>>) -> Result<Seq<LineModel>, nat>
    decreases raws.len(),
{
    if raws.len() == 0 {
        Ok(seq![])
    } else {
        match parse_all(raws.drop_last()) {
            Err(k) => Err(k),
            Ok(ls) => match parse_line(raws.last()) {
                Some(l) => Ok(ls.push(l)),
                None => Err((raws.len() - 1) as nat),
            },
        }
    }
}

/// The first `depth + 1` segments of `path`, or all of them when it is
/// shorter.
pub open spec fn prefix_at(path: Seq<Seq<char>>, depth: nat) -> Seq<Seq<char>> {
    if path.len() > depth {
        path.take(depth + 1 as int)
    } else {
        path
    }
}

pub open spec fn starts_with(path: Seq<Seq<char>>, o: Seq<Seq<char>>) -> bool {
    o.len() <= path.len() && path.take(o.len() as int) == o
}

/// A line belongs to a run committed to `common` when its prefix at
/// `depth` is a prefix of `common`, segment by segment.
pub open spec fn in_run(path: Seq<Seq<char>>, depth: nat, common: Seq<Seq<char>>) -> bool {
    starts_with(common, prefix_at(path, depth))
}

/// The end of the run that starts at `pos`: the first line from `pos` on
/// that does not belong to a run committed to `common`.
pub open spec fn run_end(doc: Seq<LineModel>, pos: nat, depth: nat, common: Seq<Seq<char>>) -> nat
    decreases doc.len() - pos,
{
    if pos < doc.len() && in_run(doc[pos as int].0, depth, common) {
        run_end(doc, pos + 1, depth, common)
    } else {
        pos
    }
}

/// The prefix a run is committed to: the one it holds, or else that of the
/// line at its position.
pub open spec fn committed(
    doc: Seq<LineModel>,
    pos: nat,
    depth: nat,
    common: Option<Seq<Seq<char>>>,
) -> Seq<Seq<char>> {
    match common {
        Some(c) => c,
        None => if pos < doc.len() {
            prefix_at(doc[pos as int].0, depth)
        } else {
            seq![]
        },
    }
}

pub proof fn lemma_run_end_bounds(doc: Seq<LineModel>, pos: nat, depth: nat, common: Seq<Seq<char>>)
    ensures
        pos <= run_end(doc, pos, depth, common),
        pos <= doc.len() ==> run_end(doc, pos, depth, common) <= doc.len(),
        forall|j: int|
            pos <= j < run_end(doc, pos, depth, common) ==> in_run(#[trigger] doc[j].0, depth, common),
    decreases doc.len() - pos,
{
    if pos < doc.len() && in_run(doc[pos as int].0, depth, common) {
        lemma_run_end_bounds(doc, pos + 1, depth, common);
    }
}

pub proof fn lemma_parse_all_err(raws: Seq<Seq<char>>, m: int, k: nat)
    requires
        0 <= m <= raws.len(),
        parse_all(raws.take(m)) == Err::<Seq<LineModel>, nat>(k),
    ensures
        parse_all(raws) == Err::<Seq<LineModel>, nat>(k),
    decreases raws.len() - m,
{
    if m < raws.len() {
        assert(raws.take(m + 1).drop_last() =~= raws.take(m));
        lemma_parse_all_err(raws, m + 1, k);
    } else {
        assert(raws.take(m) =~= raws);
    }
}

/// A run committed to the prefix of its own first line holds that line.
pub proof fn lemma_run_end_advances(doc: Seq<LineModel>, pos: nat, depth: nat)
    requires
        pos < doc.len(),
    ensures
        run_end(doc, pos, depth, prefix_at(doc[pos as int].0, depth)) > pos,
        run_end(doc, pos, depth, prefix_at(doc[pos as int].0, depth)) <= doc.len(),
{
    let c = prefix_at(doc[pos as int].0, depth);
    assert(c.take(c.len() as int) =~= c);
    lemma_run_end_bounds(doc, pos + 1, depth, c);
}

/// A copy of a line.
pub fn copy_line(l: &Line) -> (r: Line)
    ensures
        r@ == l@,
{
    let mut path: Vec<String> = Vec::new();
    let mut i: usize = 0;
    while i < l.path.len()
        invariant
            i <= l.path@.len(),
            path@ == l.path@.subrange(0, i as int),
        decreases l.path@.len() - i,
    {
        path.push(l.path[i].clone());
        assert(path@ =~= l.path@.subrange(0, i + 1));
        i = i + 1;
    }
    assert(l.path@.subrange(0, l.path@.len() as int) =~= l.path@);
    Line { path, value: l.value.clone() }
}

/// Reads one raw line; `None` when it has no `=`.
pub fn read_line_text(t: &str) -> (r: Option<Line>)
    ensures
        match r {
            Some(l) => parse_line(t@) == Some(l@),
            None => parse_line(t@) is None,
        },
{
    let u = trim_text(t);
    let us = u.as_str();
    let n = us.unicode_len();
    let i = find_char(us, 0, '=');
    assert(us@.skip(0) =~= us@);
    if i == n {
        return None;
    }
    let path = split_text(us.substring_char(0, i), '.');
    let value = String::from_str(us.substring_char(i + 1, n));
    let line = Line { path, value };
    proof {
        assert(us@.take(i as int) =~= us@.subrange(0, i as int));
        assert(us@.skip(i + 1) =~= us@.subrange(i + 1, n as int));
    }
    Some(line)
}

/// Whether `path` begins with the segments of `o`.
pub fn has_prefix(path: &Vec<String>, o: &Vec<String>) -> (r: bool)
    ensures
        r == starts_with(path_view(path@), path_view(o@)),
{
    if o.len() > path.len() {
        return false;
    }
    let mut i: usize = 0;
    while i < o.len()
        invariant
            o@.len() <= path@.len(),
            i <= o@.len(),
            forall|k: int| 0 <= k < i ==> path@[k]@ == o@[k]@,
        decreases o@.len() - i,
    {
        if path[i] != o[i] {
            proof {
                assert(path_view(path@).take(o@.len() as int)[i as int] != path_view(o@)[i as int]);
            }
            return false;
        }
        i = i + 1;
    }
    assert(path_view(path@).take(o@.len() as int) =~= path_view(o@));
    true
}

/// The first `n` segments of `path` (all of them when it has fewer).
fn take_segments(path: &Vec<String>, n: usize) -> (r: Vec<String>)
    ensures
        n <= path@.len() ==> path_view(r@) == path_view(path@).take(n as int),
        n > path@.len() ==> path_view(r@) == path_view(path@),
{
    let k = if n < path.len() {
        n
    } else {
        path.len()
    };
    let mut r: Vec<String> = Vec::new();
    let mut i: usize = 0;
    while i < k
        invariant
            k <= path@.len(),
            i <= k,
            r@ == path@.subrange(0, i as int),
        decreases k - i,
    {
        r.push(path[i].clone());
        assert(r@ =~= path@.subrange(0, i + 1));
        i = i + 1;
    }
    assert(path_view(r@) =~= path_view(path@).take(k as int));
    assert(path_view(path@).take(path@.len() as int) =~= path_view(path@));
    r
}

/// The first `depth + 1` segments of the line's path.
pub fn get_prefix(line: &Line, depth: usize) -> (r: Vec<String>)
    ensures
        path_view(r@) == prefix_at(line@.0, depth as nat),
{
    if depth < line.path.len() {
        take_segments(&line.path, depth + 1)
    } else {
        take_segments(&line.path, line.path.len())
    }
}

/// The lines of a document and a cursor into them.
pub struct Deserializer {
    lines: Vec<Line>,
    line_idx: usize,
}

impl Deserializer {
    /// The lines.
    pub closed spec fn doc(&self) -> Seq<LineModel> {
        lines_view(self.lines@)
    }

    /// The position of the cursor.
    pub closed spec fn idx(&self) -> nat {
        self.line_idx as nat
    }

    /// Reads `input`, trimming each line; fails on the first line that has
    /// no `=`, with its index.
    pub fn new(input: &str) -> (r: Result<Self, DeserializeError>)
        ensures
            match r {
                Ok(d) => parse_all(raw_lines(input@)) == Ok::<Seq<LineModel>, nat>(d.doc())
                    && d.idx() == 0,
                Err(e) => e is MalformedLine && parse_all(raw_lines(input@)) == Err::<
                    Seq<LineModel>,
                    nat,
                >(e->MalformedLine_0 as nat),
            },
    {
        let pieces = split_text(input, '\n');
        let ghost pv = pieces@.map_values(|p: String| p@);
        let mut n = pieces.len();
        if n > 0 && pieces[n - 1].unicode_len() == 0 {
            n = n - 1;
        }
        let ghost raws = raw_lines(input@);
        assert(raws =~= pv.subrange(0, n as int));
        let mut lines: Vec<Line> = Vec::new();
        let mut i: usize = 0;
        assert(raws.subrange(0, 0) =~= Seq::<Seq<char>>::empty());
        assert(lines_view(lines@) =~= Seq::<LineModel>::empty());
        while i < n
            invariant
                n <= pieces@.len(),
                pv == pieces@.map_values(|p: String| p@),
                raws == pv.subrange(0, n as int),
                raws == raw_lines(input@),
                i <= n,
                parse_all(raws.subrange(0, i as int)) == Ok::<Seq<LineModel>, nat>(
                    lines_view(lines@),
                ),
            decreases n - i,
        {
            let ghost sub = raws.subrange(0, i + 1);
            assert(sub.drop_last() =~= raws.subrange(0, i as int));
            assert(sub =~= raws.take(i + 1));
            assert(sub.last() == pieces@[i as int]@);
            match read_line_text(pieces[i].as_str()) {
                Some(l) => {
                    let ghost before = lines_view(lines@);
                    lines.push(l);
                    assert(lines_view(lines@) =~= before.push(l@));
                },
                None => {
                    proof {
                        assert(parse_line(sub.last()) is None);
                        assert(parse_all(sub) == Err::<Seq<LineModel>, nat>(i as nat));
                        lemma_parse_all_err(raws, i + 1, i as nat);
                    }
                    return Err(DeserializeError::MalformedLine(i));
                },
            }
            i = i + 1;
        }
        assert(raws.subrange(0, n as int) =~= raws);
        Ok(Deserializer { lines, line_idx: 0 })
    }

    /// A document of the given lines, the cursor at the first.
    pub fn from_lines(lines: Vec<Line>) -> (r: Self)
        ensures
            r.doc() == lines_view(lines@),
            r.idx() == 0,
    {
        Deserializer { lines, line_idx: 0 }
    }

    /// The number of lines.
    pub fn len(&self) -> (r: usize)
        ensures
            r == self.doc().len(),
    {
        self.lines.len()
    }

    /// The line at index `i`.
    pub fn line(&self, i: usize) -> (r: &Line)
        requires
            i < self.doc().len(),
        ensures
            r@ == self.doc()[i as int],
    {
        &self.lines[i]
    }

    /// The line at the cursor, not consumed.
    pub fn peek(&self) -> (r: Option<&Line>)
        ensures
            match r {
                Some(l) => self.idx() < self.doc().len() && l@ == self.doc()[self.idx() as int],
                None => self.idx() >= self.doc().len(),
            },
    {
        if self.line_idx < self.lines.len() {
            Some(&self.lines[self.line_idx])
        } else {
            None
        }
    }

    /// The line at the cursor, if there is one; the cursor moves one line on
    /// in every case.
    pub fn read(&mut self) -> (r: Option<Line>)
        requires
            old(self).idx() < usize::MAX,
        ensures
            final(self).doc() == old(self).doc(),
            final(self).idx() == old(self).idx() + 1,
            match r {
                Some(l) => old(self).idx() < old(self).doc().len() && l@ == old(self).doc()[old(
                    self,
                ).idx() as int],
                None => old(self).idx() >= old(self).doc().len(),
            },
    {
        let r = if self.line_idx < self.lines.len() {
            Some(copy_line(&self.lines[self.line_idx]))
        } else {
            None
        };
        self.line_idx = self.line_idx + 1;
        r
    }

    /// The text of the line at the cursor, without its newline; the cursor
    /// moves past it.
    pub fn read_line(&mut self) -> (r: Option<String>)
        ensures
            final(self).doc() == old(self).doc(),
            match r {
                Some(s) => old(self).idx() < old(self).doc().len() && s@.push('\n') == line_text(
                    old(self).doc()[old(self).idx() as int],
                ) && final(self).idx() == old(self).idx() + 1,
                None => old(self).idx() >= old(self).doc().len() && final(self).idx() == old(
                    self,
                ).idx(),
            },
    {
        if self.line_idx < self.lines.len() {
            let text = render_line(&self.lines[self.line_idx]);
            let n = text.as_str().unicode_len();
            let s = String::from_str(text.as_str().substring_char(0, n - 1));
            self.line_idx = self.line_idx + 1;
            assert(s@.push('\n') =~= text@);
            Some(s)
        } else {
            None
        }
    }

    /// The lines from the cursor on.
    pub fn rest_of_lines(&self) -> (r: Vec<Line>)
        ensures
            self.idx() <= self.doc().len() ==> lines_view(r@) == self.doc().skip(self.idx() as int),
            self.idx() > self.doc().len() ==> r@.len() == 0,
    {
        let mut r: Vec<Line> = Vec::new();
        let mut i: usize = self.line_idx;
        let n = self.lines.len();
        if i > n {
            i = n;
        }
        let start = i;
        assert(lines_view(r@) =~= self.doc().subrange(start as int, i as int));
        while i < n
            invariant
                n == self.lines@.len(),
                start <= i <= n,
                start == (if self.line_idx <= n {
                    self.line_idx as int
                } else {
                    n as int
                }),
                lines_view(r@) == self.doc().subrange(start as int, i as int),
            decreases n - i,
        {
            let l = copy_line(&self.lines[i]);
            let ghost before = lines_view(r@);
            r.push(l);
            assert(lines_view(r@) =~= before.push(l@));
            assert(self.doc()[i as int] == l@);
            assert(lines_view(r@) =~= self.doc().subrange(start as int, i + 1));
            i = i + 1;
        }
        if self.line_idx <= n {
            assert(self.doc().skip(self.idx() as int) =~= self.doc().subrange(start as int, n as int));
        }
        r
    }

    /// The path and the value of the line at the cursor, the path joined
    /// with `.`.
    pub fn split_line(&self) -> (r: Option<(String, String)>)
        ensures
            match r {
                Some(p) => self.idx() < self.doc().len() && p.0@ + seq!['='] + p.1@ + seq!['\n']
                    == line_text(self.doc()[self.idx() as int]) && p.1@ == self.doc()[self.idx() as int].1,
                None => self.idx() >= self.doc().len(),
            },
    {
        match self.peek() {
            Some(l) => {
                let lhs = crate::ser::join_path(&l.path);
                proof { reveal_strlit("="); }
                Some((lhs, l.value.clone()))
            },
            None => None,
        }
    }

    /// Same as `split_line`.
    pub fn split(&self) -> (r: Option<(String, String)>)
        ensures
            match r {
                Some(p) => self.idx() < self.doc().len() && p.0@ + seq!['='] + p.1@ + seq!['\n']
                    == line_text(self.doc()[self.idx() as int]) && p.1@ == self.doc()[self.idx() as int].1,
                None => self.idx() >= self.doc().len(),
            },
    {
        self.split_line()
    }

    /// The path segments of the line at the cursor.
    pub fn split_lhs(&self) -> (r: Option<Vec<String>>)
        ensures
            match r {
                Some(p) => self.idx() < self.doc().len() && path_view(p@) == self.doc()[self.idx() as int].0,
                None => self.idx() >= self.doc().len(),
            },
    {
        match self.peek() {
            Some(l) => Some(take_segments(&l.path, l.path.len())),
            None => None,
        }
    }

    /// Same as `split_lhs`.
    pub fn properties(&self) -> (r: Option<Vec<String>>)
        ensures
            match r {
                Some(p) => self.idx() < self.doc().len() && path_view(p@) == self.doc()[self.idx() as int].0,
                None => self.idx() >= self.doc().len(),
            },
    {
        self.split_lhs()
    }

    /// A run at `depth` that starts at the cursor.
    pub fn get_cmn(&self, depth: usize) -> (r: LineAccess)
        ensures
            r.pos() == self.idx(),
            r.depth() == depth,
            r.common() is None,
    {
        LineAccess::new(self.line_idx, depth)
    }

    /// The scopes at `depth` from the cursor on.
    pub fn commons(&self, depth: usize) -> (r: Commons)
        ensures
            r.current().pos() == self.idx(),
            r.current().depth() == depth,
            r.current().common() is None,
            r.is_first(),
            r.outer() == outer_of(self.doc(), self.idx(), depth as nat),
    {
        Commons::new(self, self.get_cmn(depth))
    }

    /// The value of the line at the cursor read as an unsigned decimal.
    pub fn parse_unsigned(&self) -> (r: Result<u64, DeserializeError>)
        ensures
            self.idx() >= self.doc().len() ==> r == Err::<u64, DeserializeError>(DeserializeError::Eof(self.idx() as usize)),
            self.idx() < self.doc().len() ==> {
                let s = self.doc()[self.idx() as int].1;
                match r {
                    Ok(n) => s.len() > 0 && all_digits(s) && n == digits_value(s),
                    Err(e) => e is ExpectedInteger && !(s.len() > 0 && all_digits(s)
                        && digits_value(s) <= u64::MAX),
                }
            },
    {
        match self.peek() {
            Some(l) => parse_u64_text(l.value.as_str()),
            None => Err(DeserializeError::Eof(self.line_idx)),
        }
    }

    /// The value of the line at the cursor read as a decimal with an
    /// optional leading `-`.
    pub fn parse_signed(&self) -> (r: Result<i64, DeserializeError>)
        ensures
            self.idx() >= self.doc().len() ==> r == Err::<i64, DeserializeError>(DeserializeError::Eof(self.idx() as usize)),
            self.idx() < self.doc().len() ==> {
                let s = self.doc()[self.idx() as int].1;
                match r {
                    Ok(n) => signed_value(s) == Some(n as int),
                    Err(e) => e is ExpectedInteger && match signed_value(s) {
                        Some(x) => x < i64::MIN || x > i64::MAX,
                        None => true,
                    },
                }
            },
    {
        match self.peek() {
            Some(l) => parse_i64_text(l.value.as_str()),
            None => Err(DeserializeError::Eof(self.line_idx)),
        }
    }
}

/// The number written by `s`: digits with an optional leading `-`.
pub open spec fn signed_value(s: Seq<char>) -> Option<int> {
    if s.len() > 0 && s[0] == '-' {
        let d = s.skip(1);
        if d.len() > 0 && all_digits(d) {
            Some(-(digits_value(d) as int))
        } else {
            None
        }
    } else if s.len() > 0 && all_digits(s) {
        Some(digits_value(s) as int)
    } else {
        None
    }
}

pub proof fn lemma_digits_value_grows(s: Seq<char>, k: int)
    requires
        0 <= k <= s.len(),
    ensures
        digits_value(s.take(k)) <= digits_value(s),
    decreases s.len() - k,
{
    if k < s.len() {
        lemma_digits_value_grows(s, k + 1);
        assert(s.take(k + 1).drop_last() =~= s.take(k));
    } else {
        assert(s.take(k) =~= s);
    }
}

/// Reads the decimal digits `t` as a number no greater than `limit`.
fn parse_digits(t: &str, from: usize, limit: u64) -> (r: Option<u64>)
    requires
        from <= t@.len(),
    ensures
        ({
            let s = t@.skip(from as int);
            match r {
                Some(n) => s.len() > 0 && all_digits(s) && n == digits_value(s) && n <= limit,
                None => !(s.len() > 0 && all_digits(s) && digits_value(s) <= limit),
            }
        }),
{
    let ghost s = t@.skip(from as int);
    let n = t.unicode_len();
    if from == n {
        return None;
    }
    let mut acc: u64 = 0;
    let mut i: usize = from;
    assert(s.take(0) =~= Seq::<char>::empty());
    while i < n
        invariant
            n == t@.len(),
            s == t@.skip(from as int),
            from <= i <= n,
            all_digits(s.take(i - from)),
            acc == digits_value(s.take(i - from)),
            acc <= limit,
        decreases n - i,
    {
        let c = t.get_char(i);
        if !('0' <= c && c <= '9') {
            proof {
                assert(s[i - from] == c);
            }
            return None;
        }
        let d = (c as u32 - '0' as u32) as u64;
        assert(s.take(i - from + 1).drop_last() =~= s.take(i - from));
        assert(s.take(i - from + 1).last() == c);
        if d > limit {
            proof {
                lemma_digits_value_grows(s, i - from + 1);
            }
            return None;
        }
        if acc > (limit - d) / 10 {
            proof {
                assert(acc * 10 + d > limit) by (nonlinear_arith)
                    requires acc > (limit - d) / 10, d <= 9, d <= limit || limit < d;
                lemma_digits_value_grows(s, i - from + 1);
            }
            return None;
        }
        assert(acc * 10 + d <= limit) by (nonlinear_arith)
            requires acc <= (limit - d) / 10, d <= limit;
        acc = acc * 10 + d;
        i = i + 1;
        assert(all_digits(s.take(i - from))) by {
            assert forall|k: int| 0 <= k < s.take(i - from).len() implies is_digit(
                #[trigger] s.take(i - from)[k],
            ) by {
                if k < i - from - 1 {
                    assert(s.take(i - from)[k] == s.take(i - from - 1)[k]);
                }
            }
        }
    }
    assert(s.take(n - from) =~= s);
    Some(acc)
}

fn parse_u64_text(t: &str) -> (r: Result<u64, DeserializeError>)
    ensures
        match r {
            Ok(n) => t@.len() > 0 && all_digits(t@) && n == digits_value(t@),
            Err(e) => e is ExpectedInteger && !(t@.len() > 0 && all_digits(t@) && digits_value(t@)
                <= u64::MAX),
        },
{
    assert(t@.skip(0) =~= t@);
    match parse_digits(t, 0, u64::MAX) {
        Some(n) => Ok(n),
        None => Err(DeserializeError::ExpectedInteger),
    }
}

fn parse_i64_text(t: &str) -> (r: Result<i64, DeserializeError>)
    ensures
        match r {
            Ok(n) => signed_value(t@) == Some(n as int),
            Err(e) => e is ExpectedInteger && match signed_value(t@) {
                Some(x) => x < i64::MIN || x > i64::MAX,
                None => true,
            },
        },
{
    let n = t.unicode_len();
    if n > 0 && t.get_char(0) == '-' {
        match parse_digits(t, 1, 9223372036854775808) {
            Some(v) => {
                if v == 9223372036854775808 {
                    Ok(i64::MIN)
                } else {
                    Ok(-(v as i64))
                }
            },
            None => Err(DeserializeError::ExpectedInteger),
        }
    } else {
        assert(t@.skip(0) =~= t@);
        match parse_digits(t, 0, 9223372036854775807) {
            Some(v) => Ok(v as i64),
            None => Err(DeserializeError::ExpectedInteger),
        }
    }
}


/// The segment at `depth` of the prefix a run is committed to, if any.
pub open spec fn label_at(
    doc: Seq<LineModel>,
    pos: nat,
    depth: nat,
    common: Option<Seq<Seq<char>>>,
) -> Option<Seq<char>> {
    let c = committed(doc, pos, depth, common);
    if (common is Some || pos < doc.len()) && c.len() > depth {
        Some(c[depth as int])
    } else {
        None
    }
}

/// The first `depth` segments of the line at `pos`, or fewer if its path is
/// shorter; empty at the end of the document.
pub open spec fn outer_of(doc: Seq<LineModel>, pos: nat, depth: nat) -> Seq<Seq<char>> {
    if pos < doc.len() {
        doc[pos as int].0.take(
            if depth <= doc[pos as int].0.len() {
                depth as int
            } else {
                doc[pos as int].0.len() as int
            },
        )
    } else {
        seq![]
    }
}

/// A run of lines at a depth: the lines from a position on whose prefix at
/// that depth equals the prefix the run committed to on its first line.
pub struct LineAccess {
    pos: usize,
    depth: usize,
    common: Option<Vec<String>>,
}

impl LineAccess {
    pub closed spec fn pos(&self) -> nat {
        self.pos as nat
    }

    pub closed spec fn depth(&self) -> nat {
        self.depth as nat
    }

    /// The prefix the run has committed to, once it has read a line.
    pub closed spec fn common(&self) -> Option<Seq<Seq<char>>> {
        match self.common {
            Some(c) => Some(path_view(c@)),
            None => None,
        }
    }

    /// The position of the run's next line.
    pub fn position(&self) -> (r: usize)
        ensures
            r == self.pos(),
    {
        self.pos
    }

    /// The depth of the run.
    pub fn level(&self) -> (r: usize)
        ensures
            r == self.depth(),
    {
        self.depth
    }

    /// A run at `depth` from line `pos`, committed to nothing yet.
    pub fn new(pos: usize, depth: usize) -> (r: Self)
        ensures
            r.pos() == pos,
            r.depth() == depth,
            r.common() is None,
    {
        LineAccess { pos, depth, common: None }
    }

    /// The next line of the run, consumed; `None`, with nothing consumed,
    /// where the run ends. The first line read commits the run to its prefix
    /// at the run's depth; a later line belongs to the run while its prefix
    /// there is a prefix of the committed one.
    pub fn next_line<'a>(&mut self, de: &'a Deserializer) -> (r: Option<&'a Line>)
        ensures
            final(self).depth() == old(self).depth(),
            ({
                let doc = de.doc();
                let pos = old(self).pos();
                let d = old(self).depth();
                if pos < doc.len() {
                    let p = prefix_at(doc[pos as int].0, d);
                    let c = committed(doc, pos, d, old(self).common());
                    &&& final(self).common() == Some(c)
                    &&& if starts_with(c, p) {
                        &&& r is Some
                        &&& r->Some_0@ == doc[pos as int]
                        &&& final(self).pos() == pos + 1
                    } else {
                        r is None && final(self).pos() == pos
                    }
                } else {
                    r is None && final(self).pos() == pos && final(self).common() == old(
                        self,
                    ).common()
                }
            }),
    {
        if self.pos >= de.len() {
            return None;
        }
        let line = de.line(self.pos);
        let p = get_prefix(line, self.depth);
        let same = match &self.common {
            Some(c) => has_prefix(c, &p),
            None => true,
        };
        if self.common.is_none() {
            self.common = Some(p);
        }
        proof {
            let pv = path_view(p@);
            assert(pv.take(pv.len() as int) =~= pv);
        }
        if same {
            self.pos = self.pos + 1;
            Some(line)
        } else {
            None
        }
    }

    /// Consumes the rest of the run and forgets its prefix.
    pub fn clear_state(&mut self, de: &Deserializer)
        ensures
            final(self).depth() == old(self).depth(),
            final(self).common() is None,
            final(self).pos() == run_end(
                de.doc(),
                old(self).pos(),
                old(self).depth(),
                committed(de.doc(), old(self).pos(), old(self).depth(), old(self).common()),
            ),
    {
        let ghost doc = de.doc();
        let ghost d = old(self).depth();
        let ghost c0 = committed(doc, old(self).pos(), d, old(self).common());
        let ghost target = run_end(doc, old(self).pos(), d, c0);
        if self.pos >= de.len() {
            self.common = None;
            return;
        }
        loop
            invariant
                doc == de.doc(),
                self.depth() == d,
                self.pos() <= doc.len(),
                self.pos() < doc.len() ==> committed(doc, self.pos(), d, self.common()) == c0,
                self.common() is Some ==> self.common() == Some(c0),
                run_end(doc, self.pos(), d, c0) == target,
            ensures
                self.pos() == target,
                self.depth() == d,
            decreases doc.len() - self.pos(),
        {
            match self.next_line(de) {
                Some(_) => {},
                None => {
                    assert(run_end(doc, self.pos(), d, c0) == self.pos());
                    break;
                },
            }
        }
        self.common = None;
    }

    /// The label of the run: the segment at its depth of the prefix it has
    /// committed to.
    pub fn scope(&self) -> (r: Option<String>)
        ensures
            match self.common() {
                Some(c) => if c.len() > self.depth() {
                    r is Some && r->Some_0@ == c[self.depth() as int]
                } else {
                    r is None
                },
                None => r is None,
            },
    {
        match &self.common {
            Some(c) => {
                if self.depth < c.len() {
                    Some(c[self.depth].clone())
                } else {
                    None
                }
            },
            None => None,
        }
    }

    /// The label of the run, read from its next line when it has not
    /// committed yet; nothing is consumed.
    pub fn scope_peek(&self, de: &Deserializer) -> (r: Option<String>)
        ensures
            match label_at(de.doc(), self.pos(), self.depth(), self.common()) {
                Some(l) => r is Some && r->Some_0@ == l,
                None => r is None,
            },
    {
        if self.common.is_none() {
            if self.pos >= de.len() {
                return None;
            }
            let line = de.line(self.pos);
            if self.depth < line.path.len() {
                Some(line.path[self.depth].clone())
            } else {
                None
            }
        } else {
            self.scope()
        }
    }

    /// The scopes one level deeper inside this run, from its position on.
    pub fn subdivide(&self, de: &Deserializer) -> (r: Commons)
        requires
            self.depth() < usize::MAX,
        ensures
            r.current().pos() == self.pos(),
            r.current().depth() == self.depth() + 1,
            r.current().common() is None,
            r.is_first(),
            r.outer() == outer_of(de.doc(), self.pos(), self.depth() + 1),
    {
        Commons::new(de, LineAccess::new(self.pos, self.depth + 1))
    }
}

/// The scopes at a depth inside an enclosing prefix: each scope is a run
/// at that depth, and they follow one another while the next line still
/// begins with the enclosing prefix.
pub struct Commons {
    current: LineAccess,
    first: bool,
    outer: Vec<String>,
}

impl Commons {
    /// The run where the next scope is looked for.
    pub closed spec fn current(&self) -> LineAccess {
        self.current
    }

    /// No scope has been handed out yet.
    pub closed spec fn is_first(&self) -> bool {
        self.first
    }

    /// Where the next scope is looked for.
    pub fn position(&self) -> (r: usize)
        ensures
            r == self.current().pos(),
    {
        self.current.pos
    }

    /// The enclosing prefix.
    pub closed spec fn outer(&self) -> Seq<Seq<char>> {
        path_view(self.outer@)
    }

    /// Where the next scope starts: at the current position before the
    /// first scope, past the run of the previous one after it.
    pub open spec fn next_start(&self, doc: Seq<LineModel>) -> nat {
        if self.is_first() {
            self.current().pos()
        } else {
            run_end(
                doc,
                self.current().pos(),
                self.current().depth(),
                committed(doc, self.current().pos(), self.current().depth(), None),
            )
        }
    }

    /// The scopes of `current`'s depth from its position on, inside the
    /// prefix of that many segments of the line there.
    pub fn new(de: &Deserializer, current: LineAccess) -> (r: Self)
        ensures
            r.current() == current,
            r.is_first(),
            r.outer() == outer_of(de.doc(), current.pos(), current.depth()),
    {
        let outer = if current.pos < de.len() {
            take_segments(&de.line(current.pos).path, current.depth)
        } else {
            Vec::new()
        };
        proof {
            let doc = de.doc();
            if current.pos() < doc.len() {
                let path = doc[current.pos() as int].0;
                assert(path.take(path.len() as int) =~= path);
            } else {
                assert(path_view(outer@) =~= Seq::<Seq<char>>::empty());
            }
        }
        Commons { current, first: true, outer }
    }

    /// The next scope: after the previous scope's run, the run that starts
    /// at the next line, if that line still begins with the enclosing prefix.
    pub fn next(&mut self, de: &Deserializer) -> (r: Option<LineAccess>)
        requires
            old(self).current().common() is None,
        ensures
            final(self).current().common() is None,
            final(self).current().depth() == old(self).current().depth(),
            final(self).current().pos() == old(self).next_start(de.doc()),
            final(self).outer() == old(self).outer(),
            !final(self).is_first(),
            ({
                let doc = de.doc();
                let start = old(self).next_start(doc);
                if start < doc.len() && starts_with(doc[start as int].0, old(self).outer()) {
                    &&& r is Some
                    &&& r->Some_0.pos() == start
                    &&& r->Some_0.depth() == old(self).current().depth()
                    &&& r->Some_0.common() is None
                } else {
                    r is None
                }
            }),
    {
        if !self.first {
            self.current.clear_state(de);
        }
        self.first = false;
        if self.current.pos >= de.len() {
            return None;
        }
        if !has_prefix(&de.line(self.current.pos).path, &self.outer) {
            return None;
        }
        Some(LineAccess::new(self.current.pos, self.current.depth))
    }
}
} // verus!
