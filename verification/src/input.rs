//! Reading data: which lines carry data, how a line splits into fields, and
//! how rows of values gather into columns.
use vstd::prelude::*;
use crate::text::chars_to_string;
use crate::text::str_chars;

verus! {

/// Whether `c` has the Unicode `White_Space` property, as std's
/// `char::is_whitespace` tells.
pub uninterp spec fn unicode_whitespace(c: char) -> bool;

/// `char::is_whitespace` of std. Its result is named, not spelled out: std's
/// documentation defines it by the Unicode `White_Space` property and lists
/// no characters.
#[verifier::external_body]
pub fn is_whitespace(c: char) -> (b: bool)
    ensures
        b == unicode_whitespace(c),
{
    c.is_whitespace()
}

/// ASCII whitespace as std's `char::is_ascii_whitespace` defines it: space,
/// tab, line feed, form feed and carriage return.
pub open spec fn ascii_whitespace(c: char) -> bool {
    c == ' ' || c == '\t' || c == '\n' || c == '\x0C' || c == '\r'
}

/// A character that separates fields: a comma, a semicolon or ASCII
/// whitespace.
pub open spec fn is_delimiter(c: char) -> bool {
    c == ',' || c == ';' || ascii_whitespace(c)
}

fn delimiter(c: char) -> (b: bool)
    ensures
        b == is_delimiter(c),
{
    c == ',' || c == ';' || c == ' ' || c == '\t' || c == '\n' || c == '\x0C' || c == '\r'
}

/// `s` without its leading whitespace.
pub open spec fn trim_start(s: Seq<char>) -> Seq<char>
    decreases s.len(),
{
    if s.len() > 0 && unicode_whitespace(s[0]) {
        trim_start(s.drop_first())
    } else {
        s
    }
}

/// `s` without its trailing whitespace.
pub open spec fn trim_end(s: Seq<char>) -> Seq<char>
    decreases s.len(),
{
    if s.len() > 0 && unicode_whitespace(s.last()) {
        trim_end(s.drop_last())
    } else {
        s
    }
}

/// `s` without its leading and trailing whitespace, as `str::trim` gives it.
pub open spec fn trim(s: Seq<char>) -> Seq<char> {
    trim_end(trim_start(s))
}

proof fn lemma_trim_start_from(s: Seq<char>, i: int)
    requires
        0 <= i <= s.len(),
        forall|k: int| 0 <= k < i ==> unicode_whitespace(#[trigger] s[k]),
    ensures
        trim_start(s) == trim_start(s.subrange(i, s.len() as int)),
    decreases i,
{
    if i > 0 {
        lemma_trim_start_from(s.drop_first(), i - 1);
        assert(s.drop_first().subrange(i - 1, s.drop_first().len() as int) == s.subrange(
            i,
            s.len() as int,
        ));
    } else {
        assert(s.subrange(0, s.len() as int) == s);
    }
}

proof fn lemma_trim_end_to(s: Seq<char>, j: int)
    requires
        0 <= j <= s.len(),
        forall|k: int| j <= k < s.len() ==> unicode_whitespace(#[trigger] s[k]),
    ensures
        trim_end(s) == trim_end(s.subrange(0, j)),
    decreases s.len() - j,
{
    if j < s.len() {
        lemma_trim_end_to(s.drop_last(), j);
        assert(s.drop_last().subrange(0, j) == s.subrange(0, j));
    } else {
        assert(s.subrange(0, j) == s);
    }
}

/// The characters of `s` without leading and trailing whitespace.
pub fn trim_chars(s: &Vec<char>) -> (t: Vec<char>)
    ensures
        t@ == trim(s@),
{
    let n = s.len();
    let mut i: usize = 0;
    while i < n && is_whitespace(s[i])
        invariant
            n == s@.len(),
            i <= n,
            forall|k: int| 0 <= k < i ==> unicode_whitespace(#[trigger] s@[k]),
        decreases n - i,
    {
        i = i + 1;
    }
    proof {
        lemma_trim_start_from(s@, i as int);
    }
    let ghost rest = s@.subrange(i as int, n as int);
    assert(rest.len() == 0 || !unicode_whitespace(rest[0]));
    assert(trim_start(s@) == rest);
    let mut j: usize = n;
    while j > i && is_whitespace(s[j - 1])
        invariant
            n == s@.len(),
            i <= j <= n,
            rest == s@.subrange(i as int, n as int),
            forall|k: int| j - i <= k < rest.len() ==> unicode_whitespace(#[trigger] rest[k]),
        decreases j,
    {
        j = j - 1;
    }
    proof {
        lemma_trim_end_to(rest, j - i);
        let kept = rest.subrange(0, j - i);
        assert(kept.len() == 0 || !unicode_whitespace(kept.last()));
        assert(trim_end(kept) == kept);
    }
    let mut t: Vec<char> = Vec::new();
    for k in i..j
        invariant
            n == s@.len(),
            i <= j <= n,
            t@ == s@.subrange(i as int, k as int),
    {
        t.push(s[k]);
        assert(s@.subrange(i as int, k + 1) == s@.subrange(i as int, k as int).push(s@[k as int]));
    }
    assert(t@ == rest.subrange(0, j - i));
    t
}

/// The pieces of `s` between delimiters, empty ones included, as
/// `str::split` yields them.
pub open spec fn pieces(s: Seq<char>) -> Seq<Seq<char>>
    decreases s.len(),
{
    if s.len() == 0 {
        seq![Seq::<char>::empty()]
    } else {
        let p = pieces(s.drop_last());
        if is_delimiter(s.last()) {
            p.push(Seq::<char>::empty())
        } else {
            p.update(p.len() - 1, p.last().push(s.last()))
        }
    }
}

proof fn lemma_pieces_nonempty(s: Seq<char>)
    ensures
        pieces(s).len() >= 1,
    decreases s.len(),
{
    if s.len() > 0 {
        lemma_pieces_nonempty(s.drop_last());
    }
}

/// The trimmed pieces that are not empty, in order.
pub open spec fn keep_fields(ps: Seq<Seq<char>>) -> Seq<Seq<char>>
    decreases ps.len(),
{
    if ps.len() == 0 {
        seq![]
    } else {
        let rest = keep_fields(ps.drop_last());
        if trim(ps.last()).len() > 0 {
            rest.push(trim(ps.last()))
        } else {
            rest
        }
    }
}

/// The fields of a line: split at commas, semicolons and ASCII whitespace,
/// each trimmed, the empty ones left out.
pub open spec fn fields(s: Seq<char>) -> Seq<Seq<char>> {
    keep_fields(pieces(s))
}

/// Splits `s` into its fields.
pub fn split_fields(s: &Vec<char>) -> (out: Vec<Vec<char>>)
    ensures
        out@.len() == fields(s@).len(),
        forall|k: int| 0 <= k < out@.len() ==> (#[trigger] out@[k])@ == fields(s@)[k],
{
    let n = s.len();
    let mut out: Vec<Vec<char>> = Vec::new();
    let mut cur: Vec<char> = Vec::new();
    let ghost mut done: Seq<Seq<char>> = Seq::empty();
    for i in 0..n
        invariant
            n == s@.len(),
            pieces(s@.take(i as int)) == done.push(cur@),
            out@.len() == keep_fields(done).len(),
            forall|k: int| 0 <= k < out@.len() ==> (#[trigger] out@[k])@ == keep_fields(done)[k],
    {
        let c = s[i];
        proof {
            let pre = s@.take(i + 1);
            assert(pre.drop_last() == s@.take(i as int));
            assert(pre.last() == c);
            lemma_pieces_nonempty(s@.take(i as int));
        }
        if delimiter(c) {
            let t = trim_chars(&cur);
            proof {
                let ghost d2 = done.push(cur@);
                assert(d2.drop_last() == done);
            }
            if t.len() > 0 {
                out.push(t);
            }
            proof {
                done = done.push(cur@);
            }
            cur = Vec::new();
            assert(pieces(s@.take(i + 1)) == done.push(cur@));
        } else {
            cur.push(c);
            assert(pieces(s@.take(i + 1)) == done.push(cur@));
        }
    }
    let t = trim_chars(&cur);
    proof {
        assert(s@.take(n as int) == s@);
        let d2 = done.push(cur@);
        assert(d2.drop_last() == done);
    }
    if t.len() > 0 {
        out.push(t);
    }
    out
}

proof fn lemma_trim_start_suffix(s: Seq<char>)
    ensures
        exists|k: int|
            0 <= k <= s.len() && trim_start(s) == s.subrange(k, s.len() as int) && forall|j: int|
                0 <= j < k ==> unicode_whitespace(#[trigger] s[j]),
        trim_start(s).len() > 0 ==> !unicode_whitespace(trim_start(s)[0]),
    decreases s.len(),
{
    if s.len() > 0 && unicode_whitespace(s[0]) {
        lemma_trim_start_suffix(s.drop_first());
        let k = choose|k: int|
            0 <= k <= s.drop_first().len() && trim_start(s.drop_first()) == s.drop_first().subrange(
                k,
                s.drop_first().len() as int,
            ) && forall|j: int| 0 <= j < k ==> unicode_whitespace(#[trigger] s.drop_first()[j]);
        assert(s.drop_first().subrange(k, s.drop_first().len() as int) == s.subrange(
            k + 1,
            s.len() as int,
        ));
        assert forall|j: int| 0 <= j < k + 1 implies unicode_whitespace(#[trigger] s[j]) by {
            if j > 0 {
                assert(s[j] == s.drop_first()[j - 1]);
            }
        }
    } else {
        assert(s.subrange(0, s.len() as int) == s);
    }
}

proof fn lemma_trim_end_prefix(s: Seq<char>)
    ensures
        exists|k: int|
            0 <= k <= s.len() && trim_end(s) == s.subrange(0, k) && forall|j: int|
                k <= j < s.len() ==> unicode_whitespace(#[trigger] s[j]),
        trim_end(s).len() > 0 ==> !unicode_whitespace(trim_end(s).last()),
    decreases s.len(),
{
    if s.len() > 0 && unicode_whitespace(s.last()) {
        lemma_trim_end_prefix(s.drop_last());
        let k = choose|k: int|
            0 <= k <= s.drop_last().len() && trim_end(s.drop_last()) == s.drop_last().subrange(0, k)
                && forall|j: int| k <= j < s.drop_last().len() ==> unicode_whitespace(
                #[trigger] s.drop_last()[j],
            );
        assert(s.drop_last().subrange(0, k) == s.subrange(0, k));
        assert forall|j: int| k <= j < s.len() implies unicode_whitespace(#[trigger] s[j]) by {
            if j < s.len() - 1 {
                assert(s[j] == s.drop_last()[j]);
            }
        }
    } else {
        assert(s.subrange(0, s.len() as int) == s);
    }
}

/// Trimming keeps a stretch `s[a..b]` of the text that neither begins nor
/// ends with whitespace, and removes only whitespace: everything before `a`
/// and from `b` on is whitespace.
pub proof fn lemma_trim(s: Seq<char>)
    ensures
        exists|a: int, b: int|
            0 <= a <= b <= s.len() && trim(s) == s.subrange(a, b) && (forall|j: int|
                0 <= j < a ==> unicode_whitespace(#[trigger] s[j])) && (forall|j: int|
                b <= j < s.len() ==> unicode_whitespace(#[trigger] s[j])),
        trim(s).len() > 0 ==> !unicode_whitespace(trim(s)[0]) && !unicode_whitespace(
            trim(s).last(),
        ),
{
    lemma_trim_start_suffix(s);
    let t = trim_start(s);
    let a = choose|k: int|
        0 <= k <= s.len() && t == s.subrange(k, s.len() as int) && forall|j: int|
            0 <= j < k ==> unicode_whitespace(#[trigger] s[j]);
    lemma_trim_end_prefix(t);
    let b = choose|k: int|
        0 <= k <= t.len() && trim_end(t) == t.subrange(0, k) && forall|j: int|
            k <= j < t.len() ==> unicode_whitespace(#[trigger] t[j]);
    assert(trim(s) == s.subrange(a, a + b));
    assert forall|j: int| a + b <= j < s.len() implies unicode_whitespace(#[trigger] s[j]) by {
        assert(s[j] == t[j - a]);
    }
    if trim(s).len() > 0 {
        assert(trim(s)[0] == t[0]);
    }
}

proof fn lemma_pieces_no_delimiter(s: Seq<char>)
    ensures
        forall|i: int, j: int|
            0 <= i < pieces(s).len() && 0 <= j < pieces(s)[i].len() ==> !is_delimiter(
                #[trigger] pieces(s)[i][j],
            ),
    decreases s.len(),
{
    if s.len() > 0 {
        lemma_pieces_no_delimiter(s.drop_last());
        lemma_pieces_nonempty(s.drop_last());
    }
}

proof fn lemma_keep_fields_from(ps: Seq<Seq<char>>)
    ensures
        forall|k: int|
            0 <= k < keep_fields(ps).len() ==> exists|i: int|
                0 <= i < ps.len() && #[trigger] keep_fields(ps)[k] == trim(ps[i]) && trim(
                    ps[i],
                ).len() > 0,
    decreases ps.len(),
{
    if ps.len() > 0 {
        lemma_keep_fields_from(ps.drop_last());
        let rest = keep_fields(ps.drop_last());
        assert forall|k: int| 0 <= k < keep_fields(ps).len() implies exists|i: int|
            0 <= i < ps.len() && #[trigger] keep_fields(ps)[k] == trim(ps[i]) && trim(ps[i]).len()
                > 0 by {
            if k < rest.len() {
                let i = choose|i: int|
                    0 <= i < ps.drop_last().len() && #[trigger] rest[k] == trim(ps.drop_last()[i])
                        && trim(ps.drop_last()[i]).len() > 0;
                assert(ps[i] == ps.drop_last()[i]);
            } else {
                assert(keep_fields(ps)[k] == trim(ps[ps.len() - 1]));
            }
        }
    }
}

/// The fields of a line are not empty, hold no comma, semicolon or ASCII
/// whitespace, and neither begin nor end with whitespace.
pub proof fn lemma_fields_clean(s: Seq<char>)
    ensures
        forall|k: int|
            0 <= k < fields(s).len() ==> {
                let f = #[trigger] fields(s)[k];
                &&& f.len() > 0
                &&& !unicode_whitespace(f[0])
                &&& !unicode_whitespace(f.last())
                &&& forall|j: int| 0 <= j < f.len() ==> !is_delimiter(#[trigger] f[j])
            },
{
    let ps = pieces(s);
    lemma_keep_fields_from(ps);
    lemma_pieces_no_delimiter(s);
    assert forall|k: int| 0 <= k < fields(s).len() implies {
        let f = #[trigger] fields(s)[k];
        &&& f.len() > 0
        &&& !unicode_whitespace(f[0])
        &&& !unicode_whitespace(f.last())
        &&& forall|j: int| 0 <= j < f.len() ==> !is_delimiter(#[trigger] f[j])
    } by {
        let i = choose|i: int|
            0 <= i < ps.len() && #[trigger] keep_fields(ps)[k] == trim(ps[i]) && trim(ps[i]).len()
                > 0;
        lemma_trim(ps[i]);
        let (a, b) = choose|a: int, b: int|
            0 <= a <= b <= ps[i].len() && trim(ps[i]) == ps[i].subrange(a, b) && (forall|j: int|
                0 <= j < a ==> unicode_whitespace(#[trigger] ps[i][j])) && (forall|j: int|
                b <= j < ps[i].len() ==> unicode_whitespace(#[trigger] ps[i][j]));
        let f = fields(s)[k];
        assert forall|j: int| 0 <= j < f.len() implies !is_delimiter(#[trigger] f[j]) by {
            assert(f[j] == ps[i][a + j]);
        }
    }
}

/// What a line of input holds.
pub enum LineKind {
    /// A blank line or a comment (starting with `#` or `//`).
    Skip,
    /// A line of data: its text without surrounding whitespace, and its fields.
    Data { trimmed: String, fields: Vec<String> },
}

proof fn lemma_pieces_after_delimiter(a: Seq<char>, d: char, b: Seq<char>)
    requires
        is_delimiter(d),
    ensures
        pieces(a.push(d) + b) == pieces(a) + pieces(b),
    decreases b.len(),
{
    if b.len() == 0 {
        assert(a.push(d) + b == a.push(d));
        assert(a.push(d).drop_last() == a);
    } else {
        let b0 = b.drop_last();
        lemma_pieces_after_delimiter(a, d, b0);
        lemma_pieces_nonempty(b0);
        let whole = a.push(d) + b;
        assert(whole.drop_last() == a.push(d) + b0);
        assert(whole.last() == b.last());
        let pa = pieces(a);
        let pb = pieces(b0);
        if is_delimiter(b.last()) {
            assert((pa + pb).push(Seq::<char>::empty()) == pa + pb.push(Seq::<char>::empty()));
        } else {
            let q = pa + pb;
            assert(q.last() == pb.last());
            assert(q.update(q.len() - 1, q.last().push(b.last())) == pa + pb.update(
                pb.len() - 1,
                pb.last().push(b.last()),
            ));
        }
    }
}

proof fn lemma_pieces_without_delimiter(s: Seq<char>)
    requires
        forall|j: int| 0 <= j < s.len() ==> !is_delimiter(#[trigger] s[j]),
    ensures
        pieces(s) == seq![s],
    decreases s.len(),
{
    if s.len() > 0 {
        let t = s.drop_last();
        assert forall|j: int| 0 <= j < t.len() implies !is_delimiter(#[trigger] t[j]) by {
            assert(t[j] == s[j]);
        }
        lemma_pieces_without_delimiter(t);
        assert(!is_delimiter(s[s.len() - 1]));
        assert(t.push(s.last()) == s);
    } else {
        assert(s == Seq::<char>::empty());
    }
}

proof fn lemma_keep_fields_concat(x: Seq<Seq<char>>, y: Seq<Seq<char>>)
    ensures
        keep_fields(x + y) == keep_fields(x) + keep_fields(y),
    decreases y.len(),
{
    if y.len() == 0 {
        assert(x + y == x);
    } else {
        lemma_keep_fields_concat(x, y.drop_last());
        assert((x + y).drop_last() == x + y.drop_last());
        assert((x + y).last() == y.last());
    }
}

/// A delimiter splits the fields: the fields of `a`, a delimiter, then `b`
/// are the fields of `a` followed by the fields of `b`.
pub proof fn lemma_fields_split(a: Seq<char>, d: char, b: Seq<char>)
    requires
        is_delimiter(d),
    ensures
        fields(a.push(d) + b) == fields(a) + fields(b),
{
    lemma_pieces_after_delimiter(a, d, b);
    lemma_keep_fields_concat(pieces(a), pieces(b));
}

/// Text without a delimiter is one field, itself trimmed, unless it is all
/// whitespace, when it has none.
pub proof fn lemma_fields_single(s: Seq<char>)
    requires
        forall|j: int| 0 <= j < s.len() ==> !is_delimiter(#[trigger] s[j]),
    ensures
        trim(s).len() > 0 ==> fields(s) == seq![trim(s)],
        trim(s).len() == 0 ==> fields(s).len() == 0,
{
    lemma_pieces_without_delimiter(s);
    assert(seq![s].drop_last() == Seq::<Seq<char>>::empty());
    assert(keep_fields(Seq::<Seq<char>>::empty()).len() == 0);
}

/// The line is blank or a comment once trimmed.
pub open spec fn skipped(t: Seq<char>) -> bool {
    t.len() == 0 || t[0] == '#' || (t.len() >= 2 && t[0] == '/' && t[1] == '/')
}

/// A trimmed line is skipped exactly when it is empty or begins with `#` or
/// with `//`: a line that begins with anything else, such as a digit, a sign or
/// a single `/`, is data.
pub proof fn lemma_skipped(t: Seq<char>)
    ensures
        skipped(t) <==> (t.len() == 0 || t[0] == '#' || (t.len() >= 2 && t.take(2) == "//"@)),
        t.len() > 0 && t[0] != '#' && t[0] != '/' ==> !skipped(t),
        t.len() > 0 && t[0] == '#' ==> skipped(t),
{
    reveal_strlit("//");
    if t.len() >= 2 {
        assert(t.take(2) == "//"@ <==> (t[0] == '/' && t[1] == '/')) by {
            if t[0] == '/' && t[1] == '/' {
                assert(t.take(2) =~= "//"@);
            }
            if t.take(2) == "//"@ {
                assert(t.take(2)[0] == '/' && t.take(2)[1] == '/');
            }
        }
    }
}

/// Tells a data line from a blank line or a comment, and splits a data line
/// into its fields.
pub fn classify_line(line: &str) -> (kind: LineKind)
    ensures
        skipped(trim(line@)) <==> kind is Skip,
        kind is Skip <==> (trim(line@).len() == 0 || trim(line@)[0] == '#' || (trim(line@).len()
            >= 2 && trim(line@)[0] == '/' && trim(line@)[1] == '/')),
        kind matches LineKind::Data { trimmed, fields: fs } ==> {
            &&& trimmed@ == trim(line@)
            &&& fs@.len() == fields(trim(line@)).len()
            &&& forall|k: int| 0 <= k < fs@.len() ==> (#[trigger] fs@[k])@ == fields(trim(line@))[k]
        },
{
    let chars = str_chars(line);
    let t = trim_chars(&chars);
    if t.len() == 0 || t[0] == '#' || (t.len() >= 2 && t[0] == '/' && t[1] == '/') {
        return LineKind::Skip;
    }
    let parts = split_fields(&t);
    let mut fs: Vec<String> = Vec::new();
    for k in 0..parts.len()
        invariant
            fs@.len() == k,
            forall|j: int| 0 <= j < k ==> (#[trigger] fs@[j])@ == parts@[j]@,
    {
        fs.push(chars_to_string(&parts[k]));
    }
    LineKind::Data { trimmed: chars_to_string(&t), fields: fs }
}

/// Every column holds as many values as the first.
pub open spec fn rectangular<T>(columns: Seq<Vec<T>>) -> bool {
    forall|i: int| 0 <= i < columns.len() ==> (#[trigger] columns[i])@.len() == columns[0]@.len()
}

/// What became of a row offered to [`add_row`].
pub enum RowOutcome {
    /// Its values were appended, one to each column.
    Added,
    /// It had no values.
    Empty,
    /// It had `got` values where the columns are `expected`.
    Mismatch { expected: usize, got: usize },
}

/// Appends a row of values to the columns, one value to each column; the
/// first row decides how many columns there are. An empty row, or one with a
/// different number of values, leaves the columns as they were.
pub fn add_row<T>(columns: &mut Vec<Vec<T>>, row: Vec<T>) -> (outcome: RowOutcome)
    ensures
        row@.len() == 0 ==> outcome is Empty && final(columns)@ == old(columns)@,
        row@.len() > 0 && old(columns)@.len() > 0 && row@.len() != old(columns)@.len() ==> outcome
            == (RowOutcome::Mismatch { expected: old(columns)@.len() as usize, got: row@.len() as usize })
            && final(columns)@ == old(columns)@,
        row@.len() > 0 && (old(columns)@.len() == 0 || row@.len() == old(columns)@.len()) ==> {
            &&& outcome is Added
            &&& final(columns)@.len() == row@.len()
            &&& forall|i: int|
                0 <= i < row@.len() ==> (#[trigger] final(columns)@[i])@ == (if old(
                    columns,
                )@.len() == 0 {
                    Seq::<T>::empty()
                } else {
                    old(columns)@[i]@
                }).push(row@[i])
        },
        rectangular(old(columns)@) ==> rectangular(final(columns)@),
{
    if row.len() == 0 {
        return RowOutcome::Empty;
    }
    if columns.len() == 0 {
        let n = row.len();
        for k in 0..n
            invariant
                columns@.len() == k,
                forall|i: int| 0 <= i < k ==> (#[trigger] columns@[i])@.len() == 0,
        {
            columns.push(Vec::new());
        }
    }
    if row.len() != columns.len() {
        return RowOutcome::Mismatch { expected: columns.len(), got: row.len() };
    }
    let ghost before = columns@;
    let ghost values = row@;
    let mut row = row;
    let n = row.len();
    let mut k = n;
    while k > 0
        invariant
            n == values.len(),
            k <= n,
            row@ == values.take(k as int),
            columns@.len() == n,
            before.len() == n,
            forall|i: int| 0 <= i < k ==> (#[trigger] columns@[i]) == before[i],
            forall|i: int| k <= i < n ==> (#[trigger] columns@[i])@ == before[i]@.push(values[i]),
        decreases k,
    {
        let v = row.pop().unwrap();
        k = k - 1;
        columns[k].push(v);
        assert(values.take(k + 1).drop_last() == values.take(k as int));
    }
    RowOutcome::Added
}

} // verus!
